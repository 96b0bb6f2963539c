//! The server's configuration and its table of content types.

use vstd::prelude::*;
use vstd::slice::{slice_subrange, slice_to_vec};
use vstd::string::StringExecFns;
use vstd::utf8::*;
use crate::text::{
    bytes_of, find_first, first_of, lemma_cut_at_ascii, lemma_first_of, same_bytes,
    string_from_utf8, EQUALS,
};

verus! {

/// The bytes of the extension of entry `i`.
spec fn ext_at(entries: Seq<(String, String)>, i: int) -> Seq<u8> {
    encode_utf8(entries[i].0@)
}

/// The bytes of the content type of entry `i`.
spec fn mime_at(entries: Seq<(String, String)>, i: int) -> Seq<u8> {
    encode_utf8(entries[i].1@)
}

/// True where entry `i` is for the extension `ext`.
spec fn is_for(entries: Seq<(String, String)>, ext: Seq<u8>, i: int) -> bool {
    0 <= i < entries.len() && ext_at(entries, i) == ext
}

/// True where no two entries are for the same extension.
spec fn distinct_exts(entries: Seq<(String, String)>) -> bool {
    forall|i: int, j: int|
        0 <= i < j < entries.len() ==> #[trigger] ext_at(entries, i) != #[trigger] ext_at(
            entries,
            j,
        )
}

/// The entry for `ext`, where there is one.
spec fn entry_for(entries: Seq<(String, String)>, ext: Seq<u8>) -> int {
    choose|i: int| is_for(entries, ext, i)
}

/// The table that a list of entries stands for.
spec fn table_of(entries: Seq<(String, String)>) -> Map<Seq<u8>, Seq<u8>> {
    Map::new(
        |ext: Seq<u8>| exists|i: int| is_for(entries, ext, i),
        |ext: Seq<u8>| mime_at(entries, entry_for(entries, ext)),
    )
}

/// Among distinct entries, the table holds entry `i` and no other for its
/// extension.
proof fn lemma_entry(entries: Seq<(String, String)>, i: int)
    requires
        distinct_exts(entries),
        0 <= i < entries.len(),
    ensures
        table_of(entries).contains_key(ext_at(entries, i)),
        table_of(entries)[ext_at(entries, i)] == mime_at(entries, i),
{
    let ext = ext_at(entries, i);
    assert(is_for(entries, ext, i));
    let found = entry_for(entries, ext);
    assert(is_for(entries, ext, found));
    if found < i {
        assert(ext_at(entries, found) != ext_at(entries, i));
    } else if i < found {
        assert(ext_at(entries, i) != ext_at(entries, found));
    }
}

/// The content type for each known file extension: a map from the bytes of
/// an extension to the bytes of a type. Extensions are told apart exactly,
/// byte for byte, and each has one entry at most.
#[derive(Debug)]
pub struct Mappings {
    entries: Vec<(String, String)>,
}

impl View for Mappings {
    type V = Map<Seq<u8>, Seq<u8>>;

    closed spec fn view(&self) -> Map<Seq<u8>, Seq<u8>> {
        table_of(self.entries@)
    }
}

impl Mappings {
    #[verifier::type_invariant]
    spec fn no_extension_twice(self) -> bool {
        distinct_exts(self.entries@)
    }

    /// The empty table.
    pub fn new() -> (r: Mappings)
        ensures
            r@ == Map::<Seq<u8>, Seq<u8>>::empty(),
    {
        let r = Mappings { entries: Vec::new() };
        assert(r@ =~= Map::<Seq<u8>, Seq<u8>>::empty());
        r
    }

    /// The index of the entry for the extension whose bytes are `ext`; the
    /// number of entries where there is none.
    fn find(entries: &Vec<(String, String)>, ext: &[u8]) -> (r: usize)
        ensures
            r <= entries@.len(),
            r < entries@.len() ==> ext_at(entries@, r as int) == ext@,
            r == entries@.len() ==> forall|j: int| !is_for(entries@, ext@, j),
    {
        let mut i: usize = 0;
        while i < entries.len()
            invariant
                i <= entries@.len(),
                forall|j: int| 0 <= j < i ==> ext_at(entries@, j) != ext@,
            decreases entries@.len() - i,
        {
            if same_bytes(entries[i].0.as_str().as_bytes(), ext) {
                assert(is_for(entries@, ext@, i as int));
                return i;
            }
            i += 1;
        }
        i
    }

    /// Sets the content type of `ext`, whatever it was before.
    pub fn insert(&mut self, ext: String, mime: String)
        ensures
            final(self)@ == old(self)@.insert(encode_utf8(ext@), encode_utf8(mime@)),
    {
        proof {
            use_type_invariant(&*self);
        }
        let mut entries: Vec<(String, String)> = Vec::new();
        std::mem::swap(&mut entries, &mut self.entries);
        let ghost before = entries@;
        let ghost key = encode_utf8(ext@);
        let ghost value = encode_utf8(mime@);
        let at = Self::find(&entries, ext.as_str().as_bytes());
        if at < entries.len() {
            entries.set(at, (ext, mime));
        } else {
            entries.push((ext, mime));
        }
        proof {
            let after = entries@;
            assert forall|j: int| 0 <= j < before.len() implies ext_at(after, j) == ext_at(
                before,
                j,
            ) by {}
            assert(ext_at(after, at as int) == key);
            assert(mime_at(after, at as int) == value);
            assert forall|i: int, j: int| 0 <= i < j < after.len() implies #[trigger] ext_at(
                after,
                i,
            ) != #[trigger] ext_at(after, j) by {
                if j < before.len() {
                    assert(ext_at(before, i) != ext_at(before, j));
                } else {
                    assert(!is_for(before, key, i));
                }
            }
            assert forall|q: Seq<u8>| #[trigger]
                table_of(after).contains_key(q) == table_of(before).insert(
                    key,
                    value,
                ).contains_key(q) by {
                if table_of(after).contains_key(q) {
                    let j = choose|j: int| is_for(after, q, j);
                    if q != key {
                        assert(is_for(before, q, j));
                    }
                } else if q == key {
                    assert(is_for(after, q, at as int));
                } else if table_of(before).contains_key(q) {
                    let j = choose|j: int| is_for(before, q, j);
                    assert(is_for(after, q, j));
                }
            }
            assert forall|q: Seq<u8>| #[trigger]
                table_of(after).contains_key(q) implies table_of(after)[q] == table_of(
                before,
            ).insert(key, value)[q] by {
                let j = choose|j: int| is_for(after, q, j);
                lemma_entry(after, j);
                if q != key {
                    assert(j != at);
                    assert(is_for(before, q, j));
                    lemma_entry(before, j);
                    assert(mime_at(after, j) == mime_at(before, j));
                } else {
                    lemma_entry(after, at as int);
                }
            }
            assert(table_of(after) =~= table_of(before).insert(key, value));
        }
        self.entries = entries;
    }

    /// The content type of the extension whose bytes are `ext`.
    pub fn lookup(&self, ext: &[u8]) -> (r: Option<&String>)
        ensures
            match r {
                Some(mime) => self@.contains_key(ext@) && encode_utf8(mime@) == self@[ext@],
                None => !self@.contains_key(ext@),
            },
    {
        proof {
            use_type_invariant(self);
        }
        let at = Self::find(&self.entries, ext);
        if at < self.entries.len() {
            proof {
                lemma_entry(self.entries@, at as int);
            }
            Some(&self.entries[at].1)
        } else {
            None
        }
    }

    /// The content type of `ext`.
    pub fn get(&self, ext: &str) -> (r: Option<&String>)
        ensures
            match r {
                Some(mime) => self@.contains_key(encode_utf8(ext@)) && encode_utf8(mime@)
                    == self@[encode_utf8(ext@)],
                None => !self@.contains_key(encode_utf8(ext@)),
            },
    {
        self.lookup(ext.as_bytes())
    }
}

/// What the server is started with.
#[derive(Debug)]
pub struct Config {
    /// The directory that is served.
    pub root: String,
    /// Where to listen, as `host:port`.
    pub hostname: String,
    /// The content type of each file extension.
    pub mappings: Mappings,
    /// Whether each request is logged.
    pub log: bool,
}

/// Why the arguments give no configuration.
#[derive(Debug)]
pub enum ArgFail {
    InvalidFormat(String),
}

impl ArgFail {
    /// Says in words what went wrong.
    pub fn message(&self) -> (r: String)
        ensures
            match self {
                ArgFail::InvalidFormat(arg) => r@ == "'"@ + arg@ + "' is incorrectly formatted"@,
            },
    {
        match self {
            ArgFail::InvalidFormat(arg) => {
                let mut text = "'".to_owned();
                text.append(arg.as_str());
                text.append("' is incorrectly formatted");
                text
            },
        }
    }
}

/// The content types known before any override.
pub open spec fn default_table() -> Map<Seq<u8>, Seq<u8>> {
    Map::<Seq<u8>, Seq<u8>>::empty()
        .insert(bytes_of("html"), bytes_of("text/html"))
        .insert(bytes_of("css"), bytes_of("text/css"))
        .insert(bytes_of("js"), bytes_of("text/javascript"))
        .insert(bytes_of("png"), bytes_of("image/png"))
        .insert(bytes_of("jpg"), bytes_of("image/jpeg"))
        .insert(bytes_of("jpeg"), bytes_of("image/jpeg"))
        .insert(bytes_of("ico"), bytes_of("image/vnd.microsoft.icon"))
        .insert(bytes_of("svg"), bytes_of("image/svg+xml"))
}

/// Argument `i`, or `default` where there are not that many.
pub open spec fn arg_or(args: Seq<String>, i: int, default: &str) -> Seq<char> {
    if i < args.len() {
        args[i]@
    } else {
        default@
    }
}

/// What stands before the first `=` of `arg`.
pub open spec fn named_ext(arg: Seq<u8>) -> Seq<u8> {
    arg.take(first_of(arg, EQUALS, EQUALS))
}

/// What stands after the first `=` of `arg`.
pub open spec fn named_mime(arg: Seq<u8>) -> Seq<u8> {
    arg.skip(first_of(arg, EQUALS, EQUALS) + 1)
}

/// The extension and the content type that an override `ext=mime` names: what
/// stands before its first `=` and what stands after it. `None` without `=`.
pub open spec fn override_of(arg: Seq<u8>) -> Option<(Seq<u8>, Seq<u8>)> {
    if first_of(arg, EQUALS, EQUALS) == arg.len() {
        None
    } else {
        Some((named_ext(arg), named_mime(arg)))
    }
}

/// `table` after the overrides `args`, applied in order; or the first of them
/// that is no override.
pub open spec fn overridden(table: Map<Seq<u8>, Seq<u8>>, args: Seq<Seq<u8>>) -> Result<
    Map<Seq<u8>, Seq<u8>>,
    Seq<u8>,
>
    decreases args.len(),
{
    if args.len() == 0 {
        Ok(table)
    } else {
        match override_of(args[0]) {
            None => Err(args[0]),
            Some((ext, mime)) => overridden(table.insert(ext, mime), args.skip(1)),
        }
    }
}

/// True where `arg` is an override for the extension `ext`.
pub open spec fn overrides_ext(arg: Seq<u8>, ext: Seq<u8>) -> bool {
    override_of(arg) is Some && named_ext(arg) == ext
}

/// Overrides touch the extensions they name and no others: an extension that
/// none of them names keeps the content type it had, or stays without one.
pub proof fn lemma_overrides_are_exact(
    table: Map<Seq<u8>, Seq<u8>>,
    args: Seq<Seq<u8>>,
    ext: Seq<u8>,
)
    requires
        forall|i: int| 0 <= i < args.len() ==> !overrides_ext(#[trigger] args[i], ext),
    ensures
        overridden(table, args) matches Ok(after) ==> after.contains_key(ext)
            == table.contains_key(ext) && (table.contains_key(ext) ==> after[ext] == table[ext]),
    decreases args.len(),
{
    if args.len() > 0 {
        assert(!overrides_ext(args[0], ext));
        if let Some((named, mime)) = override_of(args[0]) {
            assert forall|i: int| 0 <= i < args.skip(1).len() implies !overrides_ext(
                #[trigger] args.skip(1)[i],
                ext,
            ) by {
                assert(args.skip(1)[i] == args[i + 1]);
            }
            lemma_overrides_are_exact(table.insert(named, mime), args.skip(1), ext);
        }
    }
}

/// Of the overrides for one extension the last one counts.
pub proof fn lemma_last_override_wins(
    table: Map<Seq<u8>, Seq<u8>>,
    args: Seq<Seq<u8>>,
    last: int,
)
    requires
        0 <= last < args.len(),
        override_of(args[last]) is Some,
        forall|i: int|
            last < i < args.len() ==> !overrides_ext(#[trigger] args[i], named_ext(args[last])),
    ensures
        overridden(table, args) matches Ok(after) ==> after.contains_key(named_ext(args[last]))
            && after[named_ext(args[last])] == named_mime(args[last]),
    decreases args.len(),
{
    let ext = named_ext(args[last]);
    if let Some((named, mime)) = override_of(args[0]) {
        let rest = args.skip(1);
        if last == 0 {
            assert forall|i: int| 0 <= i < rest.len() implies !overrides_ext(
                #[trigger] rest[i],
                ext,
            ) by {
                assert(rest[i] == args[i + 1]);
            }
            lemma_overrides_are_exact(table.insert(named, mime), rest, ext);
        } else {
            assert(rest[last - 1] == args[last]);
            assert forall|i: int| last - 1 < i < rest.len() implies !overrides_ext(
                #[trigger] rest[i],
                ext,
            ) by {
                assert(rest[i] == args[i + 1]);
            }
            lemma_last_override_wins(table.insert(named, mime), rest, last - 1);
        }
    }
}

/// The bytes of each of the arguments from index `from` on.
pub open spec fn args_from(args: Seq<String>, from: int) -> Seq<Seq<u8>> {
    if from < args.len() {
        Seq::new((args.len() - from) as nat, |i: int| encode_utf8(args[from + i]@))
    } else {
        Seq::empty()
    }
}

/// The table with the built-in content types.
pub fn default_mappings() -> (r: Mappings)
    ensures
        r@ == default_table(),
{
    let mut mappings = Mappings::new();
    mappings.insert("html".to_owned(), "text/html".to_owned());
    mappings.insert("css".to_owned(), "text/css".to_owned());
    mappings.insert("js".to_owned(), "text/javascript".to_owned());
    mappings.insert("png".to_owned(), "image/png".to_owned());
    mappings.insert("jpg".to_owned(), "image/jpeg".to_owned());
    mappings.insert("jpeg".to_owned(), "image/jpeg".to_owned());
    mappings.insert("ico".to_owned(), "image/vnd.microsoft.icon".to_owned());
    mappings.insert("svg".to_owned(), "image/svg+xml".to_owned());
    mappings
}

/// Splits an override `ext=mime` at its first `=`.
pub fn split_override(arg: &str) -> (r: Option<(String, String)>)
    ensures
        match override_of(encode_utf8(arg@)) {
            None => r is None,
            Some((ext, mime)) => r matches Some(pair) && encode_utf8(pair.0@) == ext && encode_utf8(
                pair.1@,
            ) == mime,
        },
{
    let bytes = arg.as_bytes();
    let at = find_first(bytes, EQUALS, EQUALS);
    if at == bytes.len() {
        return None;
    }
    proof {
        lemma_first_of(bytes@, EQUALS, EQUALS);
        encode_utf8_valid_utf8(arg@);
        lemma_cut_at_ascii(bytes@, at as int);
    }
    let ext = slice_to_vec(slice_subrange(bytes, 0, at));
    let mime = slice_to_vec(slice_subrange(bytes, at + 1, bytes.len()));
    assert(ext@ == bytes@.take(at as int));
    assert(mime@ == bytes@.skip(at + 1));
    match (string_from_utf8(ext), string_from_utf8(mime)) {
        (Some(ext), Some(mime)) => Some((ext, mime)),
        _ => {
            assert(false);
            None
        },
    }
}

/// The configuration that the program's arguments ask for. The first is the
/// program's own name; then come the root (by default `.`), the host and port
/// (by default `localhost:8080`) and any number of overrides `ext=mime` of the
/// built-in content types. Requests are logged.
pub fn get_cfg(args: Vec<String>) -> (r: Result<Config, ArgFail>)
    ensures
        match overridden(default_table(), args_from(args@, 3)) {
            Ok(table) => r matches Ok(cfg) && cfg.root@ == arg_or(args@, 1, ".") && cfg.hostname@
                == arg_or(args@, 2, "localhost:8080") && cfg.mappings@ == table && cfg.log,
            Err(bad) => r matches Err(ArgFail::InvalidFormat(text)) && encode_utf8(text@) == bad,
        },
{
    let root = if args.len() > 1 {
        args[1].clone()
    } else {
        ".".to_owned()
    };
    let hostname = if args.len() > 2 {
        args[2].clone()
    } else {
        "localhost:8080".to_owned()
    };
    let mut mappings = default_mappings();
    let mut i: usize = 3;
    while i < args.len()
        invariant
            3 <= i,
            overridden(default_table(), args_from(args@, 3)) == overridden(
                mappings@,
                args_from(args@, i as int),
            ),
        decreases args@.len() - i,
    {
        let ghost rest = args_from(args@, i as int);
        assert(rest[0] == encode_utf8(args@[i as int]@));
        assert(rest.skip(1) == args_from(args@, i + 1));
        match split_override(args[i].as_str()) {
            Some((ext, mime)) => {
                mappings.insert(ext, mime);
            },
            None => {
                return Err(ArgFail::InvalidFormat(args[i].clone()));
            },
        }
        i += 1;
    }
    Ok(Config { root, hostname, mappings, log: true })
}

} // verus!
