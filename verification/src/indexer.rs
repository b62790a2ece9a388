//! The indexer's decisions: which files and folders become catalog entries,
//! how entries are deduplicated within one scan pass, how a scan
//! configuration is fingerprinted, and the persisted index cache with its
//! change detection. Walking the filesystem is I/O and stays outside this
//! crate; the walker hands each directory entry to `scan_visit_file` and
//! `scan_visit_dir`.

use vstd::prelude::*;

use crate::binfmt::{push_bool, push_string, push_u32_le, push_u64_le, read_bool, read_string,
    read_u32_le, read_u64_le, serialize_with_header, deserialize_with_header, spec_enc_bool,
    spec_enc_string, spec_read_bool, spec_read_string, spec_read_u32, spec_read_u64, spec_u32_le,
    spec_u64_le, spec_strip_header, spec_with_header, lemma_split_subrange,
    lemma_read_bool_after_write, lemma_read_string_after_write, lemma_read_u32_after_write,
    lemma_read_u64_after_write, lemma_header_roundtrip};
use crate::config::ScanPath;
use crate::history::encodable_str;
use crate::text::{lower_of, str_eq, to_lowercase_of};

verus! {

/// One catalog entry: a display name, the launch target, and whether it is a
/// folder.
#[derive(Debug, Clone)]
pub struct AppEntry {
    pub name: String,
    pub target_path: String,
    pub is_folder: bool,
}

/// The character-level image of an entry.
pub open spec fn entry_view(e: AppEntry) -> (Seq<char>, Seq<char>, bool) {
    (e.name@, e.target_path@, e.is_folder)
}

/// The stem and the extension of a file name, split at the last dot; a dot
/// at the very start does not begin an extension.
pub open spec fn split_file_spec(name: Seq<char>) -> (Seq<char>, Option<Seq<char>>) {
    if exists|k: int| 0 < k < name.len() && name[k] == '.' {
        let k = last_dot(name);
        (name.take(k), Some(name.skip(k + 1)))
    } else {
        (name, None)
    }
}

/// The position of the last dot after the first character.
pub open spec fn last_dot(name: Seq<char>) -> int {
    choose|k: int| 0 < k < name.len() && name[k] == '.' && (forall|j: int|
        k < j < name.len() ==> name[j] != '.')
}

proof fn lemma_last_dot(name: Seq<char>, k: int)
    requires
        0 < k < name.len(),
        name[k] == '.',
        forall|j: int| k < j < name.len() ==> name[j] != '.',
    ensures
        last_dot(name) == k,
        split_file_spec(name) == (name.take(k), Some(name.skip(k + 1))),
{
    assert(exists|k2: int| 0 < k2 < name.len() && name[k2] == '.' && (forall|j: int|
        k2 < j < name.len() ==> name[j] != '.')) by {
        assert(0 < k < name.len() && name[k] == '.' && (forall|j: int|
            k < j < name.len() ==> name[j] != '.'));
    }
    let k2 = last_dot(name);
    if k2 < k {
        assert(name[k] != '.');
    } else if k < k2 {
        assert(name[k2] != '.');
    }
}

/// Split a file name into its stem and extension.
pub fn split_file_name(name: &str) -> (r: (String, Option<String>))
    ensures
        ({
            let (stem, ext) = split_file_spec(name@);
            &&& r.0@ == stem
            &&& (r.1 is Some <==> ext is Some)
            &&& (r.1 matches Some(e) ==> ext matches Some(se) && e@ == se)
        }),
{
    let n = name.unicode_len();
    let mut k = n;
    while k > 1
        invariant
            n == name@.len(),
            k <= n,
            forall|j: int| k <= j < n ==> name@[j] != '.',
        decreases k,
    {
        if name.get_char(k - 1) == '.' {
            let stem = name.substring_char(0, k - 1).to_owned();
            let ext = name.substring_char(k, n).to_owned();
            proof {
                lemma_last_dot(name@, k - 1);
                assert(stem@ =~= name@.take(k - 1));
                assert(ext@ =~= name@.skip(k as int));
            }
            return (stem, Some(ext));
        }
        k = k - 1;
    }
    proof {
        if exists|k2: int| 0 < k2 < name@.len() && name@[k2] == '.' {
            let k2 = choose|k2: int| 0 < k2 < name@.len() && name@[k2] == '.';
            assert(name@[k2] != '.');
        }
    }
    (name.to_owned(), None)
}

/// Whether some string in `v` has exactly the characters `s`.
pub open spec fn contains_str(v: Seq<String>, s: Seq<char>) -> bool {
    exists|i: int| 0 <= i < v.len() && v[i]@ == s
}

fn contains_string(v: &Vec<String>, s: &str) -> (r: bool)
    ensures
        r == contains_str(v@, s@),
{
    let n = v.len();
    let mut i: usize = 0;
    while i < n
        invariant
            n == v@.len(),
            i <= n,
            forall|j: int| 0 <= j < i ==> v@[j]@ != s@,
        decreases n - i,
    {
        if str_eq(v[i].as_str(), s) {
            return true;
        }
        i = i + 1;
    }
    false
}

/// Lowercase each configured extension, as the scan rules are prepared once
/// before a scan pass.
pub fn lower_extensions(exts: &Vec<String>) -> (r: Vec<String>)
    ensures
        r@.len() == exts@.len(),
        forall|i: int| 0 <= i < r@.len() ==> r@[i]@ == lower_of(#[trigger] exts@[i]@),
{
    let n = exts.len();
    let mut r: Vec<String> = Vec::new();
    let mut i: usize = 0;
    while i < n
        invariant
            n == exts@.len(),
            i <= n,
            r@.len() == i,
            forall|j: int| 0 <= j < i ==> r@[j]@ == lower_of(#[trigger] exts@[j]@),
        decreases n - i,
    {
        r.push(to_lowercase_of(exts[i].as_str()));
        i = i + 1;
    }
    r
}

/// Whether a plain file is accepted by the (already lowercased) extension
/// list: it has an extension whose lowercased, dot-prefixed form is listed,
/// and a non-empty stem.
pub open spec fn file_accepted(name: Seq<char>, exts: Seq<String>) -> bool {
    let (stem, extopt) = split_file_spec(name);
    match extopt {
        Some(e) => contains_str(exts, seq!['.'] + lower_of(e)) && stem.len() > 0,
        None => false,
    }
}

/// The dedup key of a plain file.
pub open spec fn file_key(name: Seq<char>) -> Seq<char> {
    lower_of(split_file_spec(name).0)
}

/// Consider one plain file for the catalog: keep it when its extension is
/// listed and no entry with the same lowercased stem was seen; dedup is by
/// name, so the first occurrence in scan order wins.
pub fn scan_visit_file(
    entries: &mut Vec<AppEntry>,
    seen: &mut Vec<String>,
    file_name: &str,
    full_path: &str,
    extensions: &Vec<String>,
)
    ensures
        ({
            let accept = file_accepted(file_name@, extensions@) && !contains_str(
                old(seen)@,
                file_key(file_name@),
            );
            if accept {
                &&& final(entries)@.len() == old(entries)@.len() + 1
                &&& final(entries)@.take(old(entries)@.len() as int) == old(entries)@
                &&& final(entries)@.last().name@ == split_file_spec(file_name@).0
                &&& final(entries)@.last().target_path@ == full_path@
                &&& final(entries)@.last().is_folder == false
                &&& final(seen)@.len() == old(seen)@.len() + 1
                &&& final(seen)@.take(old(seen)@.len() as int) == old(seen)@
                &&& final(seen)@.last()@ == file_key(file_name@)
            } else {
                final(entries)@ == old(entries)@ && final(seen)@ == old(seen)@
            }
        }),
{
    let (stem, extopt) = split_file_name(file_name);
    let ext = match extopt {
        Some(e) => e,
        None => {
            return ;
        },
    };
    let lowered_ext = to_lowercase_of(ext.as_str());
    let mut dotted = String::new();
    dotted.append(".");
    dotted.append(lowered_ext.as_str());
    proof {
        reveal_strlit(".");
        assert("."@ =~= seq!['.']);
    }
    if !contains_string(extensions, dotted.as_str()) {
        return ;
    }
    if stem.as_str().unicode_len() == 0 {
        return ;
    }
    let key = to_lowercase_of(stem.as_str());
    if contains_string(seen, key.as_str()) {
        return ;
    }
    let ghost e0 = entries@;
    let ghost s0 = seen@;
    entries.push(AppEntry { name: stem, target_path: full_path.to_owned(), is_folder: false });
    seen.push(key);
    proof {
        assert(entries@.take(e0.len() as int) =~= e0);
        assert(seen@.take(s0.len() as int) =~= s0);
    }
}

/// The dedup key of a folder entry; folders live in their own namespace so
/// a file and a folder may share a display name.
pub open spec fn folder_key(name: Seq<char>) -> Seq<char> {
    "folder:"@ + lower_of(name)
}

/// Consider one directory for the catalog: when folder entries are enabled
/// and no folder with the same lowercased name was seen, it becomes an
/// entry.
pub fn scan_visit_dir(
    entries: &mut Vec<AppEntry>,
    seen: &mut Vec<String>,
    dir_name: &str,
    full_path: &str,
    include_folders: bool,
)
    ensures
        ({
            let accept = include_folders && dir_name@.len() > 0 && !contains_str(
                old(seen)@,
                folder_key(dir_name@),
            );
            if accept {
                &&& final(entries)@.len() == old(entries)@.len() + 1
                &&& final(entries)@.take(old(entries)@.len() as int) == old(entries)@
                &&& final(entries)@.last().name@ == dir_name@
                &&& final(entries)@.last().target_path@ == full_path@
                &&& final(entries)@.last().is_folder == true
                &&& final(seen)@.len() == old(seen)@.len() + 1
                &&& final(seen)@.take(old(seen)@.len() as int) == old(seen)@
                &&& final(seen)@.last()@ == folder_key(dir_name@)
            } else {
                final(entries)@ == old(entries)@ && final(seen)@ == old(seen)@
            }
        }),
{
    if !include_folders {
        return ;
    }
    if dir_name.unicode_len() == 0 {
        return ;
    }
    let lowered = to_lowercase_of(dir_name);
    let mut key = String::new();
    key.append("folder:");
    key.append(lowered.as_str());
    if contains_string(seen, key.as_str()) {
        return ;
    }
    let ghost e0 = entries@;
    let ghost s0 = seen@;
    entries.push(
        AppEntry { name: dir_name.to_owned(), target_path: full_path.to_owned(), is_folder: true },
    );
    seen.push(key);
    proof {
        assert(entries@.take(e0.len() as int) =~= e0);
        assert(seen@.take(s0.len() as int) =~= s0);
    }
}

/// Two entry lists are equal position by position.
pub open spec fn entries_equal_spec(a: Seq<AppEntry>, b: Seq<AppEntry>) -> bool {
    a.len() == b.len() && forall|i: int| 0 <= i < a.len() ==> entry_view(a[i]) == entry_view(b[i])
}

/// Decide whether two catalogs hold the same entries in the same order.
pub fn entries_equal(a: &[AppEntry], b: &[AppEntry]) -> (r: bool)
    ensures
        r == entries_equal_spec(a@, b@),
{
    if a.len() != b.len() {
        return false;
    }
    let n = a.len();
    let mut i: usize = 0;
    while i < n
        invariant
            n == a@.len() == b@.len(),
            i <= n,
            forall|j: int| 0 <= j < i ==> entry_view(a@[j]) == entry_view(b@[j]),
        decreases n - i,
    {
        if !str_eq(a[i].name.as_str(), b[i].name.as_str()) || !str_eq(
            a[i].target_path.as_str(),
            b[i].target_path.as_str(),
        ) || a[i].is_folder != b[i].is_folder {
            assert(entry_view(a@[i as int]) != entry_view(b@[i as int]));
            return false;
        }
        i = i + 1;
    }
    true
}

/// The 64-bit FNV-1a offset basis.
pub const FNV_BASIS: u64 = 0xcbf29ce484222325;

/// The 64-bit FNV-1a prime.
pub const FNV_PRIME: u64 = 0x100000001b3;

/// FNV-1a over `bytes`, continuing from state `h`.
pub open spec fn fnv1a_rec(bytes: Seq<u8>, h: u64) -> u64
    decreases bytes.len(),
{
    if bytes.len() == 0 {
        h
    } else {
        fnv1a_rec(bytes.skip(1), ((((h ^ (bytes[0] as u64)) as int) * (FNV_PRIME as int)) % 0x10000000000000000) as u64)
    }
}

pub open spec fn fnv1a(bytes: Seq<u8>) -> u64 {
    fnv1a_rec(bytes, FNV_BASIS)
}

/// The byte stream hashed to fingerprint a scan configuration.
pub open spec fn spec_config_fingerprint(additional: Seq<String>, scan: Seq<ScanPath>) -> Seq<u8> {
    spec_u64_le(additional.len() as u64) + enc_strings(additional) + spec_u64_le(
        scan.len() as u64,
    ) + enc_scan_paths(scan)
}

pub open spec fn enc_strings(s: Seq<String>) -> Seq<u8>
    decreases s.len(),
{
    if s.len() == 0 {
        Seq::empty()
    } else {
        spec_enc_string(s[0]@) + enc_strings(s.skip(1))
    }
}

pub open spec fn enc_scan_path(p: ScanPath) -> Seq<u8> {
    spec_enc_string(p.path@) + spec_u64_le(p.extensions@.len() as u64) + enc_strings(p.extensions@)
        + spec_enc_bool(p.include_folders)
}

pub open spec fn enc_scan_paths(s: Seq<ScanPath>) -> Seq<u8>
    decreases s.len(),
{
    if s.len() == 0 {
        Seq::empty()
    } else {
        enc_scan_path(s[0]) + enc_scan_paths(s.skip(1))
    }
}

proof fn lemma_enc_strings_snoc(s: Seq<String>, x: String)
    ensures
        enc_strings(s.push(x)) == enc_strings(s) + spec_enc_string(x@),
    decreases s.len(),
{
    let s2 = s.push(x);
    if s.len() == 0 {
        assert(s2[0] == x);
        assert(s2.skip(1) =~= Seq::<String>::empty());
        assert(enc_strings(Seq::<String>::empty()) == Seq::<u8>::empty());
        assert(enc_strings(s2) =~= enc_strings(s) + spec_enc_string(x@));
    } else {
        assert(s2[0] == s[0]);
        assert(s2.skip(1) =~= s.skip(1).push(x));
        lemma_enc_strings_snoc(s.skip(1), x);
        assert(enc_strings(s2) =~= enc_strings(s) + spec_enc_string(x@));
    }
}

proof fn lemma_enc_scan_paths_snoc(s: Seq<ScanPath>, x: ScanPath)
    ensures
        enc_scan_paths(s.push(x)) == enc_scan_paths(s) + enc_scan_path(x),
    decreases s.len(),
{
    let s2 = s.push(x);
    if s.len() == 0 {
        assert(s2[0] == x);
        assert(s2.skip(1) =~= Seq::<ScanPath>::empty());
        assert(enc_scan_paths(Seq::<ScanPath>::empty()) == Seq::<u8>::empty());
        assert(enc_scan_paths(s2) =~= enc_scan_paths(s) + enc_scan_path(x));
    } else {
        assert(s2[0] == s[0]);
        assert(s2.skip(1) =~= s.skip(1).push(x));
        lemma_enc_scan_paths_snoc(s.skip(1), x);
        assert(enc_scan_paths(s2) =~= enc_scan_paths(s) + enc_scan_path(x));
    }
}

fn write_strings(out: &mut Vec<u8>, s: &[String])
    ensures
        final(out)@ == old(out)@ + enc_strings(s@),
{
    let n = s.len();
    let mut i: usize = 0;
    proof {
        assert(enc_strings(s@.take(0)) == Seq::<u8>::empty());
        assert(out@ =~= out@ + enc_strings(s@.take(0)));
    }
    while i < n
        invariant
            n == s@.len(),
            i <= n,
            out@ == old(out)@ + enc_strings(s@.take(i as int)),
        decreases n - i,
    {
        push_string(out, s[i].as_str());
        proof {
            lemma_enc_strings_snoc(s@.take(i as int), s@[i as int]);
            assert(s@.take(i + 1) =~= s@.take(i as int).push(s@[i as int]));
            assert(out@ =~= old(out)@ + enc_strings(s@.take(i + 1)));
        }
        i = i + 1;
    }
    proof {
        assert(s@.take(n as int) =~= s@);
    }
}

/// The persisted index cache: the catalog as of the last scan, stamped with
/// the configuration fingerprint it was built from.
#[derive(Debug, Clone)]
pub struct IndexCache {
    pub format_version: u32,
    pub built_at: u64,
    pub entries: Vec<AppEntry>,
    pub config_hash: u64,
}

pub const INDEX_CACHE_VERSION: u32 = 1;

/// The bytes of the persisted index cache begin with this magic tag, the
/// letters `INDX`.
pub open spec fn index_magic_spec() -> Seq<u8> {
    seq![0x49u8, 0x4Eu8, 0x44u8, 0x58u8]
}

pub fn index_magic() -> (r: [u8; 4])
    ensures
        r@ == index_magic_spec(),
{
    let r: [u8; 4] = [0x49u8, 0x4Eu8, 0x44u8, 0x58u8];
    proof {
        assert(r@ =~= index_magic_spec());
    }
    r
}

/// The character-level image of an index cache.
pub ghost struct IndexModel {
    pub format_version: u32,
    pub built_at: u64,
    pub entries: Seq<(Seq<char>, Seq<char>, bool)>,
    pub config_hash: u64,
}

pub open spec fn entries_view(s: Seq<AppEntry>) -> Seq<(Seq<char>, Seq<char>, bool)> {
    s.map_values(|e: AppEntry| entry_view(e))
}

impl IndexCache {
    pub open spec fn model(self) -> IndexModel {
        IndexModel {
            format_version: self.format_version,
            built_at: self.built_at,
            entries: entries_view(self.entries@),
            config_hash: self.config_hash,
        }
    }
}

pub open spec fn enc_entry(t: (Seq<char>, Seq<char>, bool)) -> Seq<u8> {
    spec_enc_string(t.0) + spec_enc_string(t.1) + spec_enc_bool(t.2)
}

pub open spec fn enc_entries(s: Seq<(Seq<char>, Seq<char>, bool)>) -> Seq<u8>
    decreases s.len(),
{
    if s.len() == 0 {
        Seq::empty()
    } else {
        enc_entry(s[0]) + enc_entries(s.skip(1))
    }
}

/// All lengths in the cache fit the codec's length prefixes.
pub open spec fn encodable_index(m: IndexModel) -> bool {
    &&& m.entries.len() <= u64::MAX
    &&& (forall|i: int| 0 <= i < m.entries.len() ==> encodable_str((#[trigger] m.entries[i]).0)
        && encodable_str(m.entries[i].1))
}

pub open spec fn spec_index_payload(m: IndexModel) -> Seq<u8> {
    spec_u32_le(m.format_version) + spec_u64_le(m.built_at) + spec_u64_le(m.entries.len() as u64)
        + enc_entries(m.entries) + spec_u64_le(m.config_hash)
}

pub open spec fn spec_index_file(m: IndexModel) -> Seq<u8> {
    spec_with_header(index_magic_spec(), INDEX_CACHE_VERSION, spec_index_payload(m))
}

proof fn lemma_enc_entries_snoc(s: Seq<(Seq<char>, Seq<char>, bool)>, x: (Seq<char>, Seq<char>, bool))
    ensures
        enc_entries(s.push(x)) == enc_entries(s) + enc_entry(x),
    decreases s.len(),
{
    let s2 = s.push(x);
    if s.len() == 0 {
        assert(s2[0] == x);
        assert(s2.skip(1) =~= Seq::<(Seq<char>, Seq<char>, bool)>::empty());
        assert(enc_entries(Seq::<(Seq<char>, Seq<char>, bool)>::empty()) == Seq::<u8>::empty());
        assert(enc_entries(s2) =~= enc_entries(s) + enc_entry(x));
    } else {
        assert(s2[0] == s[0]);
        assert(s2.skip(1) =~= s.skip(1).push(x));
        lemma_enc_entries_snoc(s.skip(1), x);
        assert(enc_entries(s2) =~= enc_entries(s) + enc_entry(x));
    }
}

/// Parse `n` catalog entries starting at `off`.
pub open spec fn sp_entries(b: Seq<u8>, off: int, n: nat) -> Option<
    (Seq<(Seq<char>, Seq<char>, bool)>, int),
>
    decreases n,
{
    if n == 0 {
        Some((Seq::empty(), off))
    } else {
        match spec_read_string(b, off) {
            Some((nm, o1)) => match spec_read_string(b, o1) {
                Some((tp, o2)) => match spec_read_bool(b, o2) {
                    Some((fl, o3)) => match sp_entries(b, o3, (n - 1) as nat) {
                        Some((rest, end)) => Some((seq![(nm, tp, fl)] + rest, end)),
                        None => None,
                    },
                    None => None,
                },
                None => None,
            },
            None => None,
        }
    }
}

/// The cache a byte buffer holds; `None` on a short buffer, a different
/// magic or version, malformed contents or trailing garbage.
pub open spec fn spec_decode_index(bytes: Seq<u8>) -> Option<IndexModel> {
    match spec_strip_header(bytes, index_magic_spec(), INDEX_CACHE_VERSION) {
        None => None,
        Some(pl) => match spec_read_u32(pl, 0) {
            Some((fv, o1)) => match spec_read_u64(pl, o1) {
                Some((ba, o2)) => match spec_read_u64(pl, o2) {
                    Some((n, o3)) => match sp_entries(pl, o3, n as nat) {
                        Some((es, o4)) => match spec_read_u64(pl, o4) {
                            Some((ch, end)) => {
                                if end == pl.len() {
                                    Some(
                                        IndexModel {
                                            format_version: fv,
                                            built_at: ba,
                                            entries: es,
                                            config_hash: ch,
                                        },
                                    )
                                } else {
                                    None
                                }
                            },
                            None => None,
                        },
                        None => None,
                    },
                    None => None,
                },
                None => None,
            },
            None => None,
        },
    }
}

fn write_entries(out: &mut Vec<u8>, s: &Vec<AppEntry>)
    ensures
        final(out)@ == old(out)@ + enc_entries(entries_view(s@)),
{
    let n = s.len();
    let mut i: usize = 0;
    proof {
        assert(entries_view(s@.take(0)) =~= Seq::<(Seq<char>, Seq<char>, bool)>::empty());
        assert(enc_entries(entries_view(s@.take(0))) == Seq::<u8>::empty());
        assert(out@ =~= out@ + enc_entries(entries_view(s@.take(0))));
    }
    while i < n
        invariant
            n == s@.len(),
            i <= n,
            out@ == old(out)@ + enc_entries(entries_view(s@.take(i as int))),
        decreases n - i,
    {
        push_string(out, s[i].name.as_str());
        push_string(out, s[i].target_path.as_str());
        push_bool(out, s[i].is_folder);
        proof {
            let pv = entries_view(s@.take(i as int));
            let x = entry_view(s@[i as int]);
            lemma_enc_entries_snoc(pv, x);
            assert(entries_view(s@.take(i + 1)) =~= pv.push(x));
            assert(out@ =~= old(out)@ + enc_entries(entries_view(s@.take(i + 1))));
        }
        i = i + 1;
    }
    proof {
        assert(s@.take(n as int) =~= s@);
    }
}

fn parse_entries(bytes: &[u8], off: usize, n: u64) -> (r: Option<(Vec<AppEntry>, usize)>)
    ensures
        r is Some <==> sp_entries(bytes@, off as int, n as nat) is Some,
        r matches Some(p) ==> sp_entries(bytes@, off as int, n as nat) == Some(
            (entries_view(p.0@), p.1 as int),
        ),
{
    let mut acc: Vec<AppEntry> = Vec::new();
    let mut cur = off;
    let mut i: u64 = 0;
    proof {
        assert(entries_view(acc@) =~= Seq::<(Seq<char>, Seq<char>, bool)>::empty());
    }
    while i < n
        invariant
            i <= n,
            (match sp_entries(bytes@, cur as int, (n - i) as nat) {
                Some(p) => sp_entries(bytes@, off as int, n as nat) == Some(
                    (entries_view(acc@) + p.0, p.1),
                ),
                None => sp_entries(bytes@, off as int, n as nat) is None,
            }),
        decreases n - i,
    {
        let ghost rem = (n - i) as nat;
        let (nm, o1) = match read_string(bytes, cur) {
            Some(p) => p,
            None => {
                return None;
            },
        };
        let (tp, o2) = match read_string(bytes, o1) {
            Some(p) => p,
            None => {
                return None;
            },
        };
        let (fl, o3) = match read_bool(bytes, o2) {
            Some(p) => p,
            None => {
                return None;
            },
        };
        let ghost accv = entries_view(acc@);
        let ghost x = (nm@, tp@, fl);
        acc.push(AppEntry { name: nm, target_path: tp, is_folder: fl });
        proof {
            assert(entries_view(acc@) =~= accv.push(x));
            let sub = sp_entries(bytes@, o3 as int, (rem - 1) as nat);
            if sub is Some {
                let p = sub->Some_0;
                assert(sp_entries(bytes@, cur as int, rem) == Some((seq![x] + p.0, p.1)));
                assert(accv + (seq![x] + p.0) =~= accv.push(x) + p.0);
            } else {
                assert(sp_entries(bytes@, cur as int, rem) is None);
            }
        }
        cur = o3;
        i = i + 1;
    }
    proof {
        assert(sp_entries(bytes@, cur as int, 0) == Some(
            (Seq::<(Seq<char>, Seq<char>, bool)>::empty(), cur as int),
        ));
        assert(entries_view(acc@) + Seq::<(Seq<char>, Seq<char>, bool)>::empty() =~= entries_view(
            acc@,
        ));
    }
    Some((acc, cur))
}

impl IndexCache {
    /// The persisted image of this cache behind the `INDX` envelope.
    pub fn encode(&self) -> (r: Vec<u8>)
        ensures
            r@ == spec_index_file(self.model()),
    {
        let mut payload: Vec<u8> = Vec::new();
        push_u32_le(&mut payload, self.format_version);
        push_u64_le(&mut payload, self.built_at);
        push_u64_le(&mut payload, self.entries.len() as u64);
        write_entries(&mut payload, &self.entries);
        push_u64_le(&mut payload, self.config_hash);
        proof {
            assert(entries_view(self.entries@).len() == self.entries@.len());
            assert(payload@ =~= spec_index_payload(self.model()));
        }
        serialize_with_header(index_magic(), INDEX_CACHE_VERSION, &payload)
    }

    /// Decode a persisted index cache.
    pub fn decode(bytes: &[u8]) -> (r: Option<IndexCache>)
        ensures
            r is Some <==> spec_decode_index(bytes@) is Some,
            r matches Some(c) ==> spec_decode_index(bytes@) == Some(c.model()),
    {
        let payload = match deserialize_with_header(bytes, index_magic(), INDEX_CACHE_VERSION) {
            Some(p) => p,
            None => {
                return None;
            },
        };
        let pl = payload.as_slice();
        let (fv, o1) = match read_u32_le(pl, 0) {
            Some(p) => p,
            None => {
                return None;
            },
        };
        let (ba, o2) = match read_u64_le(pl, o1) {
            Some(p) => p,
            None => {
                return None;
            },
        };
        let (n, o3) = match read_u64_le(pl, o2) {
            Some(p) => p,
            None => {
                return None;
            },
        };
        let (es, o4) = match parse_entries(pl, o3, n) {
            Some(p) => p,
            None => {
                return None;
            },
        };
        let (ch, end) = match read_u64_le(pl, o4) {
            Some(p) => p,
            None => {
                return None;
            },
        };
        if end != pl.len() {
            return None;
        }
        Some(IndexCache { format_version: fv, built_at: ba, entries: es, config_hash: ch })
    }
}

proof fn lemma_sp_entries_of_enc(b: Seq<u8>, off: int, s: Seq<(Seq<char>, Seq<char>, bool)>)
    requires
        0 <= off,
        off + enc_entries(s).len() <= b.len(),
        b.subrange(off, off + enc_entries(s).len()) == enc_entries(s),
        forall|i: int| 0 <= i < s.len() ==> encodable_str((#[trigger] s[i]).0) && encodable_str(
            s[i].1,
        ),
    ensures
        sp_entries(b, off, s.len() as nat) == Some((s, off + enc_entries(s).len())),
    decreases s.len(),
{
    if s.len() == 0 {
        assert(s =~= Seq::<(Seq<char>, Seq<char>, bool)>::empty());
    } else {
        let e0 = enc_entry(s[0]);
        let rest = enc_entries(s.skip(1));
        assert(enc_entries(s) == e0 + rest);
        lemma_split_subrange(b, off, e0, rest);
        let en = spec_enc_string(s[0].0);
        let et = spec_enc_string(s[0].1);
        let eb = spec_enc_bool(s[0].2);
        assert(e0 == en + (et + eb)) by {
            assert(en + et + eb =~= en + (et + eb));
        }
        lemma_split_subrange(b, off, en, et + eb);
        lemma_split_subrange(b, off + en.len(), et, eb);
        lemma_read_string_after_write(b, off, s[0].0);
        lemma_read_string_after_write(b, off + en.len(), s[0].1);
        lemma_read_bool_after_write(b, off + en.len() + et.len(), s[0].2);
        assert(forall|i: int| 0 <= i < s.skip(1).len() ==> s.skip(1)[i] == s[i + 1]);
        lemma_sp_entries_of_enc(b, off + e0.len(), s.skip(1));
        assert(seq![(s[0].0, s[0].1, s[0].2)] + s.skip(1) =~= s);
    }
}

/// Decoding the encoding of any index cache yields it back.
#[verifier::rlimit(100)]
pub proof fn lemma_index_round_trip(m: IndexModel)
    requires
        encodable_index(m),
    ensures
        spec_decode_index(spec_index_file(m)) == Some(m),
{
    let pl = spec_index_payload(m);
    lemma_header_roundtrip(index_magic_spec(), INDEX_CACHE_VERSION, pl);
    let e1 = spec_u32_le(m.format_version);
    let e2 = spec_u64_le(m.built_at);
    let e3 = spec_u64_le(m.entries.len() as u64);
    let e4 = enc_entries(m.entries);
    let e5 = spec_u64_le(m.config_hash);
    assert(pl == e1 + e2 + e3 + e4 + e5);
    assert(pl.subrange(0, pl.len() as int) =~= pl);
    assert(pl == e1 + (e2 + (e3 + (e4 + e5)))) by {
        assert(e1 + e2 + e3 + e4 + e5 =~= e1 + (e2 + (e3 + (e4 + e5))));
    }
    lemma_split_subrange(pl, 0, e1, e2 + (e3 + (e4 + e5)));
    lemma_read_u32_after_write(pl, 0, m.format_version);
    lemma_split_subrange(pl, 4, e2, e3 + (e4 + e5));
    lemma_read_u64_after_write(pl, 4, m.built_at);
    lemma_split_subrange(pl, 12, e3, e4 + e5);
    lemma_read_u64_after_write(pl, 12, m.entries.len() as u64);
    lemma_split_subrange(pl, 20, e4, e5);
    lemma_sp_entries_of_enc(pl, 20, m.entries);
    lemma_read_u64_after_write(pl, 20 + e4.len() as int, m.config_hash);
    assert((m.entries.len() as u64) as nat == m.entries.len());
    assert(20 + e4.len() + 8 == pl.len());
}

/// Whether the fresh scan differs from what the cache file holds: a missing
/// or unreadable cache, another format version, another configuration
/// fingerprint, or an entry list that differs anywhere.
pub open spec fn index_changed_spec(
    cache_bytes: Seq<u8>,
    current_hash: u64,
    entries: Seq<AppEntry>,
) -> bool {
    match spec_decode_index(cache_bytes) {
        None => true,
        Some(m) => m.format_version != INDEX_CACHE_VERSION || m.config_hash != current_hash
            || m.entries != entries_view(entries),
    }
}

/// Compare a fresh scan against the persisted cache bytes.
pub fn index_changed(cache_bytes: &[u8], current_hash: u64, entries: &[AppEntry]) -> (r: bool)
    ensures
        r == index_changed_spec(cache_bytes@, current_hash, entries@),
{
    match IndexCache::decode(cache_bytes) {
        None => true,
        Some(c) => {
            if c.format_version != INDEX_CACHE_VERSION {
                return true;
            }
            if c.config_hash != current_hash {
                return true;
            }
            let same = entries_equal(c.entries.as_slice(), entries);
            proof {
                let mv = entries_view(c.entries@);
                let ev = entries_view(entries@);
                if entries_equal_spec(c.entries@, entries@) {
                    assert(mv =~= ev);
                } else {
                    if mv == ev {
                        assert(mv.len() == ev.len());
                        assert forall|i: int| 0 <= i < c.entries@.len() implies entry_view(
                            c.entries@[i],
                        ) == entry_view(entries@[i]) by {
                            assert(mv[i] == ev[i]);
                        }
                    }
                }
            }
            !same
        },
    }
}

/// Fingerprint a scan configuration, so that an unchanged configuration can
/// be recognized across runs.
pub fn compute_config_hash(additional: &[String], scan: &[ScanPath]) -> (r: u64)
    ensures
        r == fnv1a(spec_config_fingerprint(additional@, scan@)),
{
    let mut bytes: Vec<u8> = Vec::new();
    push_u64_le(&mut bytes, additional.len() as u64);
    write_strings(&mut bytes, additional);
    push_u64_le(&mut bytes, scan.len() as u64);
    let n = scan.len();
    let mut i: usize = 0;
    let ghost prefix = bytes@;
    proof {
        assert(enc_scan_paths(scan@.take(0)) == Seq::<u8>::empty());
        assert(bytes@ =~= prefix + enc_scan_paths(scan@.take(0)));
    }
    while i < n
        invariant
            n == scan@.len(),
            i <= n,
            bytes@ == prefix + enc_scan_paths(scan@.take(i as int)),
        decreases n - i,
    {
        push_string(&mut bytes, scan[i].path.as_str());
        push_u64_le(&mut bytes, scan[i].extensions.len() as u64);
        write_strings(&mut bytes, scan[i].extensions.as_slice());
        push_bool(&mut bytes, scan[i].include_folders);
        proof {
            lemma_enc_scan_paths_snoc(scan@.take(i as int), scan@[i as int]);
            assert(scan@.take(i + 1) =~= scan@.take(i as int).push(scan@[i as int]));
            assert(bytes@ =~= prefix + enc_scan_paths(scan@.take(i + 1)));
        }
        i = i + 1;
    }
    proof {
        assert(scan@.take(n as int) =~= scan@);
        assert(bytes@ =~= spec_config_fingerprint(additional@, scan@));
    }
    let total = bytes.len();
    let mut h: u64 = FNV_BASIS;
    let mut k: usize = 0;
    proof {
        assert(bytes@.skip(0) =~= bytes@);
    }
    while k < total
        invariant
            total == bytes@.len(),
            k <= total,
            fnv1a_rec(bytes@, FNV_BASIS) == fnv1a_rec(bytes@.skip(k as int), h),
        decreases total - k,
    {
        let ghost rest = bytes@.skip(k as int);
        let b = bytes[k];
        proof {
            assert(rest[0] == b);
            assert(rest.skip(1) =~= bytes@.skip(k + 1));
        }
        h = (h ^ (b as u64)).wrapping_mul(FNV_PRIME);
        k = k + 1;
    }
    proof {
        assert(bytes@.skip(total as int) =~= Seq::<u8>::empty());
    }
    h
}

} // verus!
