//! The input-based task cache: where a task's entry is stored, the hash of a task's inputs
//! (its command, the contents of its input files, and the hashes of its dependencies), and
//! whether a stored entry answers a lookup. Reading and writing the entry files is the
//! caller's part.

use vstd::prelude::*;

use vstd::utf8::{decode_utf8, encode_utf8};

use sha2::{Digest, Sha256};

use crate::config::project::strings_view;
use crate::config::types::{is_name_char, valid_name};
use crate::graph::TaskId;
use crate::graph::task::TaskKey;
use crate::paths::{join_path, joined_path};
use crate::text::{lemma_lt_irreflexive, lemma_lt_total, lemma_lt_transitive, push_char, seq_lt, str_less};

verus! {

/// The SHA-256 digest of `data`.
pub uninterp spec fn sha256(data: Seq<u8>) -> Seq<u8>;

/// `sha2::Sha256::digest`: the SHA-256 digest of `data`, which is 32 bytes long.
#[verifier::external_body]
fn sha256_digest(data: &Vec<u8>) -> (r: Vec<u8>)
    ensures
        r@ == sha256(data@),
        r@.len() == 32,
{
    Sha256::digest(data.as_slice()).to_vec()
}

/// The lower-case hexadecimal digit of `n`, below 16.
pub open spec fn hex_digit(n: int) -> char {
    if n < 10 {
        (('0' as int) + n) as char
    } else {
        (('a' as int) + n - 10) as char
    }
}

/// The bytes in lower-case hexadecimal, two digits each.
pub open spec fn hex_of(bytes: Seq<u8>) -> Seq<char>
    decreases bytes.len(),
{
    if bytes.len() == 0 {
        Seq::empty()
    } else {
        hex_of(bytes.drop_last()).push(hex_digit(bytes.last() as int / 16)).push(hex_digit(bytes.last() as int % 16))
    }
}

fn hex_char(n: u8) -> (r: char)
    requires
        n < 16,
    ensures
        r == hex_digit(n as int),
{
    if n < 10 {
        (n + 48) as char
    } else {
        (n + 87) as char
    }
}

/// Hexadecimal text has two digits for each byte.
pub proof fn lemma_hex_len(bytes: Seq<u8>)
    ensures
        hex_of(bytes).len() == 2 * bytes.len(),
    decreases bytes.len(),
{
    if bytes.len() > 0 {
        lemma_hex_len(bytes.drop_last());
    }
}

/// The bytes in lower-case hexadecimal.
pub fn to_hex(bytes: &Vec<u8>) -> (r: String)
    ensures
        r@ == hex_of(bytes@),
        r@.len() == 2 * bytes@.len(),
{
    proof {
        lemma_hex_len(bytes@);
    }
    let mut out = String::new();
    let mut i: usize = 0;
    proof {
        assert(bytes@.take(0) =~= Seq::<u8>::empty());
    }
    while i < bytes.len()
        invariant
            i <= bytes.len(),
            out@ == hex_of(bytes@.take(i as int)),
        decreases bytes.len() - i,
    {
        let b = bytes[i];
        proof {
            assert(bytes@.take(i + 1).drop_last() =~= bytes@.take(i as int));
            assert(bytes@.take(i + 1).last() == b);
        }
        push_char(&mut out, hex_char(b / 16));
        push_char(&mut out, hex_char(b % 16));
        i = i + 1;
    }
    proof {
        assert(bytes@.take(bytes.len() as int) =~= bytes@);
    }
    out
}

/// The SHA-256 digest of `data`, in lower-case hexadecimal.
pub open spec fn sha256_hex(data: Seq<u8>) -> Seq<char> {
    hex_of(sha256(data))
}

/// The name of the file holding the cache entry of task `task`: the digest of
/// `<project>:<target>`, then `.json`.
pub open spec fn entry_file_name(task: TaskKey) -> Seq<char> {
    sha256_hex(encode_utf8(task.0 + ":"@ + task.1)) + ".json"@
}

/// The part of the hashed text that a list of input files adds: for each file, its path,
/// `:`, the digest of its content, and a zero byte.
pub open spec fn files_part(files: Seq<(Seq<char>, Seq<u8>)>) -> Seq<u8>
    decreases files.len(),
{
    if files.len() == 0 {
        Seq::empty()
    } else {
        files_part(files.drop_last()) + encode_utf8(files.last().0) + seq![58u8] + encode_utf8(
            sha256_hex(files.last().1),
        ) + seq![0u8]
    }
}

/// The part of the hashed text that the dependency hashes add: each, then a zero byte.
pub open spec fn deps_part(deps: Seq<Seq<char>>) -> Seq<u8>
    decreases deps.len(),
{
    if deps.len() == 0 {
        Seq::empty()
    } else {
        deps_part(deps.drop_last()) + encode_utf8(deps.last()) + seq![0u8]
    }
}

/// The text whose digest is a task's input hash: the command and a zero byte, then the
/// input files in the order given, then the dependency hashes in the order given.
pub open spec fn input_text(command: Seq<char>, files: Seq<(Seq<char>, Seq<u8>)>, deps: Seq<Seq<char>>) -> Seq<u8> {
    encode_utf8(command) + seq![0u8] + files_part(files) + deps_part(deps)
}

/// What one input file puts into the hashed text: its path, `:`, the hexadecimal SHA-256
/// digest of its content, and a zero byte.
pub open spec fn file_segment(path: Seq<char>, content: Seq<u8>) -> Seq<u8> {
    encode_utf8(path) + seq![58u8] + encode_utf8(hex_of(sha256(content))) + seq![0u8]
}

/// The files of two lists, one after the other, put the first list's part and then the
/// second's into the hashed text.
pub proof fn lemma_files_part_concat(a: Seq<(Seq<char>, Seq<u8>)>, b: Seq<(Seq<char>, Seq<u8>)>)
    ensures
        files_part(a + b) == files_part(a) + files_part(b),
    decreases b.len(),
{
    if b.len() == 0 {
        assert(a + b =~= a);
        assert(files_part(a) + files_part(b) =~= files_part(a));
    } else {
        lemma_files_part_concat(a, b.drop_last());
        assert((a + b).drop_last() =~= a + b.drop_last());
        assert((a + b).last() == b.last());
        let seg = encode_utf8(b.last().0) + seq![58u8] + encode_utf8(sha256_hex(b.last().1)) + seq![0u8];
        assert(files_part(a + b) =~= files_part(a + b.drop_last()) + seg);
        assert(files_part(b) =~= files_part(b.drop_last()) + seg);
        assert(files_part(a + b) =~= files_part(a) + files_part(b));
    }
}

/// A single file puts exactly its own segment into the hashed text.
pub proof fn lemma_files_part_one(path: Seq<char>, content: Seq<u8>)
    ensures
        files_part(seq![(path, content)]) == file_segment(path, content),
{
    let f = seq![(path, content)];
    assert(f.drop_last() =~= Seq::<(Seq<char>, Seq<u8>)>::empty());
    assert(files_part(f.drop_last()) == Seq::<u8>::empty());
    assert(f.last() == (path, content));
    assert(files_part(f) == files_part(f.drop_last()) + encode_utf8(path) + seq![58u8] + encode_utf8(
        sha256_hex(content),
    ) + seq![0u8]);
    assert(files_part(f) =~= file_segment(path, content));
}

/// The text a task's input hash is computed from holds, for every input file in turn, that
/// file's path, `:`, the digest of its content and a zero byte, between the parts of the files
/// before it and after it; so changing any one file's content changes its segment and nothing
/// else.
pub proof fn lemma_input_text_holds_every_file(
    command: Seq<char>,
    files: Seq<(Seq<char>, Seq<u8>)>,
    deps: Seq<Seq<char>>,
    i: int,
)
    requires
        0 <= i < files.len(),
    ensures
        input_text(command, files, deps) == encode_utf8(command) + seq![0u8] + files_part(files.take(i))
            + file_segment(files[i].0, files[i].1) + files_part(files.skip(i + 1)) + deps_part(deps),
{
    let before = files.take(i);
    let one = seq![files[i]];
    let after = files.skip(i + 1);
    assert(files =~= before + one + after);
    lemma_files_part_concat(before + one, after);
    lemma_files_part_concat(before, one);
    lemma_files_part_one(files[i].0, files[i].1);
    assert(files_part(files) == files_part(before) + file_segment(files[i].0, files[i].1) + files_part(after));
    assert(input_text(command, files, deps) =~= encode_utf8(command) + seq![0u8] + files_part(before)
        + file_segment(files[i].0, files[i].1) + files_part(after) + deps_part(deps));
}

/// Two tasks can share an entry file only when both are the same task, or when two different
/// texts have the same SHA-256 digest: the file name depends on the project as well as the
/// target (project names hold no `:`).
pub proof fn lemma_entry_names_distinct(k1: TaskKey, k2: TaskKey)
    requires
        valid_name(k1.0),
        valid_name(k2.0),
        k1 != k2,
        entry_file_name(k1) == entry_file_name(k2),
    ensures
        exists|x: Seq<u8>, y: Seq<u8>| x != y && #[trigger] sha256_hex(x) == #[trigger] sha256_hex(y),
{
    broadcast use vstd::utf8::encode_utf8_decode_utf8;

    let s1 = k1.0 + ":"@ + k1.1;
    let s2 = k2.0 + ":"@ + k2.1;
    let x = encode_utf8(s1);
    let y = encode_utf8(s2);
    let h1 = sha256_hex(x);
    let h2 = sha256_hex(y);
    reveal_strlit(":");
    reveal_strlit(".json");
    assert(h1 =~= entry_file_name(k1).take(entry_file_name(k1).len() - 5));
    assert(h2 =~= entry_file_name(k2).take(entry_file_name(k2).len() - 5));
    assert(h1 == h2);
    assert(s1 != s2) by {
        if s1 == s2 {
            let a: int = k1.0.len() as int;
            let b: int = k2.0.len() as int;
            assert(s1[a] == ':');
            assert(s2[b] == ':');
            if a < b {
                assert(s2[a] == k2.0[a]);
                assert(is_name_char(k2.0[a]));
            } else if b < a {
                assert(s1[b] == k1.0[b]);
                assert(is_name_char(k1.0[b]));
            }
            assert(a == b);
            assert(k1.0 =~= s1.take(a));
            assert(k2.0 =~= s2.take(b));
            assert(k1.1 =~= s1.skip(a + 1));
            assert(k2.1 =~= s2.skip(b + 1));
        }
    }
    assert(decode_utf8(x) == s1);
    assert(decode_utf8(y) == s2);
    assert(x != y);
}

/// Each string is no later than the next.
pub open spec fn sorted_strings(s: Seq<Seq<char>>) -> bool {
    forall|i: int, j: int| 0 <= i < j < s.len() ==> !seq_lt(#[trigger] s[j], #[trigger] s[i])
}

/// The order of strings, allowing equal ones: `a` does not come after `b`.
pub open spec fn string_le() -> spec_fn(Seq<char>, Seq<char>) -> bool {
    |a: Seq<char>, b: Seq<char>| !seq_lt(b, a)
}

/// The strings in increasing order, each as often as it occurs.
pub open spec fn sorted_copy(s: Seq<Seq<char>>) -> Seq<Seq<char>> {
    s.sort_by(string_le())
}

/// The order of strings is a total order.
proof fn lemma_string_le_total()
    ensures
        vstd::relations::total_ordering(string_le()),
{
    let le = string_le();
    assert forall|x: Seq<char>| #[trigger] le(x, x) by {
        lemma_lt_irreflexive(x);
    }
    assert forall|x: Seq<char>, y: Seq<char>| #[trigger] le(x, y) && #[trigger] le(y, x) implies x == y by {
        lemma_lt_total(x, y);
    }
    assert forall|x: Seq<char>, y: Seq<char>, z: Seq<char>| #[trigger] le(x, y) && #[trigger] le(y, z) implies le(
        x,
        z,
    ) by {
        lemma_lt_total(x, y);
        if seq_lt(z, x) && x != y {
            lemma_lt_transitive(z, x, y);
        }
    }
    assert forall|x: Seq<char>, y: Seq<char>| #[trigger] le(x, y) || #[trigger] le(y, x) by {
        lemma_lt_total(x, y);
    }
}

/// A sorted sequence with the same strings as `s` is the sorted copy of `s`.
proof fn lemma_sorted_is_sorted_copy(sorted: Seq<Seq<char>>, s: Seq<Seq<char>>)
    requires
        sorted_strings(sorted),
        sorted.to_multiset() == s.to_multiset(),
    ensures
        sorted == sorted_copy(s),
{
    lemma_string_le_total();
    s.lemma_sort_by_ensures(string_le());
    assert forall|i: int, j: int| 0 <= i < j < sorted.len() implies #[trigger] (string_le())(sorted[i], sorted[j]) by {}
    vstd::seq_lib::lemma_sorted_unique(sorted, sorted_copy(s), string_le());
}

/// The input hash does not depend on the order in which the dependency hashes are given:
/// lists holding the same hashes, as often each, sort the same.
pub proof fn lemma_dependency_order_irrelevant(d1: Seq<Seq<char>>, d2: Seq<Seq<char>>)
    requires
        d1.to_multiset() == d2.to_multiset(),
    ensures
        sorted_copy(d1) == sorted_copy(d2),
{
    lemma_string_le_total();
    d1.lemma_sort_by_ensures(string_le());
    d2.lemma_sort_by_ensures(string_le());
    vstd::seq_lib::lemma_sorted_unique(sorted_copy(d1), sorted_copy(d2), string_le());
}

/// The views of a sequence of input files.
pub open spec fn files_view(v: Seq<(String, Vec<u8>)>) -> Seq<(Seq<char>, Seq<u8>)> {
    v.map_values(|f: (String, Vec<u8>)| (f.0@, f.1@))
}

/// Statistics about the cache.
#[derive(Debug, Clone)]
pub struct CacheStats {
    /// Total number of cache entries.
    pub entry_count: usize,
    /// Total size of the cache directory in bytes.
    pub total_size: u64,
    /// Number of cache hits during this run.
    pub hits: usize,
    /// Number of cache misses during this run.
    pub misses: usize,
}

impl Default for CacheStats {
    fn default() -> (r: Self)
        ensures
            r.entry_count == 0,
            r.total_size == 0,
            r.hits == 0,
            r.misses == 0,
    {
        CacheStats { entry_count: 0, total_size: 0, hits: 0, misses: 0 }
    }
}

/// A cache entry stored for a task.
#[derive(Debug)]
pub struct CacheEntry {
    /// Hash of the task inputs.
    pub input_hash: String,
    /// When the cache entry was created, as RFC 3339 text in UTC.
    pub timestamp: String,
    /// Whether the task succeeded.
    pub success: bool,
    /// The command that was executed.
    pub command: String,
}

/// Input-based cache for task outputs.
#[derive(Debug)]
pub struct Cache {
    /// Root directory of the cache (`<workspace root>/.guild/cache`).
    cache_dir: String,
    /// Statistics for the current run.
    stats: CacheStats,
}

/// A cache's directory and the counts of the lookups of this run.
pub struct CacheView {
    pub cache_dir: Seq<char>,
    pub hits: usize,
    pub misses: usize,
}

impl View for Cache {
    type V = CacheView;

    closed spec fn view(&self) -> CacheView {
        CacheView { cache_dir: self.cache_dir@, hits: self.stats.hits, misses: self.stats.misses }
    }
}

/// Sorts strings by insertion, keeping each as often as it occurs.
fn sort_strings(v: &Vec<String>) -> (r: Vec<String>)
    ensures
        sorted_strings(strings_view(r@)),
        strings_view(r@).to_multiset() == strings_view(v@).to_multiset(),
{
    broadcast use vstd::seq_lib::group_to_multiset_ensures;

    let mut out: Vec<String> = Vec::new();
    let mut i: usize = 0;
    proof {
        assert(strings_view(v@).take(0) =~= Seq::<Seq<char>>::empty());
        assert(strings_view(out@) =~= Seq::<Seq<char>>::empty());
    }
    while i < v.len()
        invariant
            i <= v.len(),
            sorted_strings(strings_view(out@)),
            strings_view(out@).to_multiset() == strings_view(v@).take(i as int).to_multiset(),
        decreases v.len() - i,
    {
        let x = v[i].clone();
        let ghost s0 = strings_view(out@);
        let mut p: usize = 0;
        let mut found = false;
        while p < out.len() && !found
            invariant
                s0 == strings_view(out@),
                p <= out.len(),
                forall|k: int| 0 <= k < p ==> !seq_lt(x@, #[trigger] s0[k]),
                found ==> p < out.len() && seq_lt(x@, s0[p as int]),
            decreases out.len() - p + (if found { 0int } else { 1int }),
        {
            if str_less(x.as_str(), out[p].as_str()) {
                found = true;
            } else {
                p = p + 1;
            }
        }
        let ghost xv = x@;
        out.insert(p, x);
        proof {
            let s1 = strings_view(out@);
            assert(s1 =~= s0.insert(p as int, xv));
            assert forall|a: int, b: int| 0 <= a < b < s1.len() implies !seq_lt(#[trigger] s1[b], #[trigger] s1[a]) by {
                if b == p {
                    assert(s1[a] == s0[a]);
                } else if a == p {
                    assert(s1[b] == s0[b - 1]);
                    if seq_lt(s0[b - 1], xv) {
                        lemma_lt_transitive(s0[b - 1], xv, s0[p as int]);
                        if b - 1 == p {
                            lemma_lt_irreflexive(s0[p as int]);
                        }
                    }
                } else if a < p && b < p {
                    assert(s1[a] == s0[a] && s1[b] == s0[b]);
                } else if a < p {
                    assert(s1[a] == s0[a] && s1[b] == s0[b - 1]);
                } else {
                    assert(s1[a] == s0[a - 1] && s1[b] == s0[b - 1]);
                }
            }
            vstd::seq_lib::to_multiset_insert(s0, p as int, xv);
            assert(strings_view(v@).take(i + 1) =~= strings_view(v@).take(i as int).push(xv));
            vstd::seq_lib::to_multiset_build(strings_view(v@).take(i as int), xv);
        }
        i = i + 1;
    }
    proof {
        assert(strings_view(v@).take(v.len() as int) =~= strings_view(v@));
    }
    out
}

/// Appends the UTF-8 bytes of `s` to `buf`.
fn push_utf8(buf: &mut Vec<u8>, s: &str)
    ensures
        final(buf)@ == old(buf)@ + encode_utf8(s@),
{
    let mut bytes = s.as_bytes_vec();
    buf.append(&mut bytes);
}

impl Cache {
    /// Create a new cache at the given workspace root: its directory is `.guild/cache` there.
    pub fn new(workspace_root: &str) -> (r: Self)
        ensures
            r@.cache_dir == joined_path(workspace_root@, ".guild/cache"@),
            r@.hits == 0,
            r@.misses == 0,
    {
        Cache { cache_dir: join_path(workspace_root, ".guild/cache"), stats: CacheStats::default() }
    }

    /// Get the cache directory path.
    pub fn cache_dir(&self) -> (r: &str)
        ensures
            r@ == self@.cache_dir,
    {
        self.cache_dir.as_str()
    }

    /// The path of the file holding the cache entry of a task.
    pub fn entry_path(&self, task_id: &TaskId) -> (r: String)
        ensures
            r@ == joined_path(self@.cache_dir, entry_file_name(task_id@)),
    {
        let key = task_id.to_string();
        let mut bytes: Vec<u8> = Vec::new();
        push_utf8(&mut bytes, key.as_str());
        proof {
            assert(bytes@ =~= encode_utf8(task_id@.0 + ":"@ + task_id@.1));
        }
        let mut name = to_hex(&sha256_digest(&bytes));
        name.append(".json");
        join_path(self.cache_dir.as_str(), name.as_str())
    }

    /// Compute the input hash for a task.
    ///
    /// The hash is computed from the target command, the input files (in the order given:
    /// by path, each once), and the dependency hashes in increasing order.
    pub fn compute_input_hash(
        &self,
        command: &str,
        files: &Vec<(String, Vec<u8>)>,
        dependency_hashes: &Vec<String>,
    ) -> (r: String)
        ensures
            r@ == sha256_hex(input_text(command@, files_view(files@), sorted_copy(strings_view(dependency_hashes@)))),
            r@.len() == 64,
    {
        let mut text: Vec<u8> = Vec::new();
        push_utf8(&mut text, command);
        text.push(0u8);
        let ghost head = text@;
        let ghost fv = files_view(files@);
        let mut i: usize = 0;
        proof {
            assert(fv.take(0) =~= Seq::<(Seq<char>, Seq<u8>)>::empty());
            assert(text@ =~= head + files_part(fv.take(0)));
        }
        while i < files.len()
            invariant
                fv == files_view(files@),
                i <= files.len(),
                text@ == head + files_part(fv.take(i as int)),
            decreases files.len() - i,
        {
            let f = &files[i];
            proof {
                assert(fv.take(i + 1).drop_last() =~= fv.take(i as int));
                assert(fv.take(i + 1).last() == (f.0@, f.1@));
            }
            let ghost before = text@;
            push_utf8(&mut text, f.0.as_str());
            text.push(58u8);
            let digest = to_hex(&sha256_digest(&f.1));
            push_utf8(&mut text, digest.as_str());
            text.push(0u8);
            proof {
                assert(text@ =~= before + encode_utf8(f.0@) + seq![58u8] + encode_utf8(sha256_hex(f.1@)) + seq![0u8]);
                assert(text@ =~= head + files_part(fv.take(i + 1)));
            }
            i = i + 1;
        }
        proof {
            assert(fv.take(files.len() as int) =~= fv);
        }
        let sorted = sort_strings(dependency_hashes);
        let ghost sv = strings_view(sorted@);
        let ghost mid = text@;
        let mut j: usize = 0;
        proof {
            assert(sv.take(0) =~= Seq::<Seq<char>>::empty());
            assert(text@ =~= mid + deps_part(sv.take(0)));
        }
        while j < sorted.len()
            invariant
                sv == strings_view(sorted@),
                j <= sorted.len(),
                text@ == mid + deps_part(sv.take(j as int)),
            decreases sorted.len() - j,
        {
            proof {
                assert(sv.take(j + 1).drop_last() =~= sv.take(j as int));
                assert(sv.take(j + 1).last() == sorted@[j as int]@);
            }
            let ghost before = text@;
            push_utf8(&mut text, sorted[j].as_str());
            text.push(0u8);
            proof {
                assert(text@ =~= before + encode_utf8(sorted@[j as int]@) + seq![0u8]);
                assert(text@ =~= mid + deps_part(sv.take(j + 1)));
            }
            j = j + 1;
        }
        proof {
            assert(sv.take(sorted.len() as int) =~= sv);
            assert(text@ =~= input_text(command@, fv, sv));
            lemma_sorted_is_sorted_copy(sv, strings_view(dependency_hashes@));
        }
        to_hex(&sha256_digest(&text))
    }

    /// Record a lookup of a task's entry, given the entry stored for it, if one could be read.
    /// The entry answers the lookup when it was written for the same input hash by a run that
    /// succeeded: that counts as a hit and returns it; anything else counts as a miss.
    pub fn check_entry(&mut self, stored: Option<CacheEntry>, current_hash: &str) -> (r: Option<CacheEntry>)
        requires
            old(self)@.hits < usize::MAX,
            old(self)@.misses < usize::MAX,
        ensures
            final(self)@.cache_dir == old(self)@.cache_dir,
            match stored {
                Some(e) => e.input_hash@ == current_hash@ && e.success,
                None => false,
            } ==> {
                &&& r == stored
                &&& final(self)@.hits == old(self)@.hits + 1
                &&& final(self)@.misses == old(self)@.misses
            },
            !match stored {
                Some(e) => e.input_hash@ == current_hash@ && e.success,
                None => false,
            } ==> {
                &&& r is None
                &&& final(self)@.hits == old(self)@.hits
                &&& final(self)@.misses == old(self)@.misses + 1
            },
    {
        match stored {
            Some(e) => {
                if e.success && crate::text::string_eq(&e.input_hash, &current_hash.to_owned()) {
                    self.stats.hits = self.stats.hits + 1;
                    Some(e)
                } else {
                    self.stats.misses = self.stats.misses + 1;
                    None
                }
            },
            None => {
                self.stats.misses = self.stats.misses + 1;
                None
            },
        }
    }

    /// The statistics of this run's lookups; the counts of stored entries are left at zero.
    pub fn run_stats(&self) -> (r: CacheStats)
        ensures
            r.hits == self@.hits,
            r.misses == self@.misses,
            r.entry_count == 0,
            r.total_size == 0,
    {
        CacheStats { entry_count: 0, total_size: 0, hits: self.stats.hits, misses: self.stats.misses }
    }

    /// The entry to store for a task that ran at `timestamp` (RFC 3339 text in UTC, the
    /// current time as the caller reads it) with the given input hash and command.
    pub fn new_entry(&self, input_hash: String, success: bool, command: String, timestamp: String) -> (r: CacheEntry)
        ensures
            r.input_hash == input_hash,
            r.success == success,
            r.command == command,
            r.timestamp == timestamp,
    {
        CacheEntry { input_hash, timestamp, success, command }
    }
}

} // verus!
