//! Deletion-planning helpers around the decoded central-directory entries:
//! turning the numeric mode into its component codes, normalizing stored
//! entry names into relative paths, selecting the entries whose on-disk
//! counterparts match by exact size, and ordering paths depth-first for
//! removal.

use vstd::multiset::Multiset;
use vstd::prelude::*;
use vstd::seq_lib::lemma_multiset_commutative;
use vstd::string::StrSliceExecFns;
use vstd::string::StringExecFns;

use crate::zip::CentralDirectoryFileHeader;
use crate::zip::EntryModel;

verus! {

/// Whether bit `c - 1` of the mode byte is set; code `c` names that bit.
pub open spec fn mode_bit_set(mode: u8, c: u32) -> bool
    recommends
        1 <= c <= 8,
{
    (mode >> (c - 1) as u8) & 1 == 1
}

/// Unpack the mode byte into the ascending list of its set bit positions,
/// 1-based: mode 3 holds codes 1 and 2.
pub fn unpack_mode(mode: u8) -> (codes: Vec<u32>)
    ensures
        forall|k: int| 0 <= k < codes@.len() ==> 1 <= #[trigger] codes@[k] <= 8,
        forall|k1: int, k2: int|
            0 <= k1 < k2 < codes@.len() ==> codes@[k1] < codes@[k2],
        forall|c: u32| 1 <= c <= 8 ==> (codes@.contains(c) <==> mode_bit_set(mode, c)),
{
    let mut codes: Vec<u32> = Vec::new();
    let mut c: u32 = 1;
    while c <= 8
        invariant
            1 <= c <= 9,
            forall|k: int| 0 <= k < codes@.len() ==> 1 <= #[trigger] codes@[k] < c,
            forall|k1: int, k2: int|
                0 <= k1 < k2 < codes@.len() ==> codes@[k1] < codes@[k2],
            forall|b: u32| 1 <= b < c ==> (codes@.contains(b) <==> mode_bit_set(mode, b)),
        decreases 9 - c,
    {
        let ghost prev = codes@;
        if (mode >> (c - 1) as u8) & 1 == 1 {
            codes.push(c);
            proof {
                assert(codes@ =~= prev.push(c));
                assert forall|b: u32| 1 <= b < c + 1 implies (codes@.contains(b)
                    <==> mode_bit_set(mode, b)) by {
                    if b < c {
                        if prev.contains(b) {
                            let k = choose|k: int| 0 <= k < prev.len() && prev[k] == b;
                            assert(codes@[k] == b);
                        }
                        if codes@.contains(b) {
                            let k = choose|k: int| 0 <= k < codes@.len() && codes@[k] == b;
                            assert(k < prev.len() && prev[k] == b);
                        }
                    } else {
                        assert(codes@[codes@.len() - 1] == c);
                    }
                }
            }
        } else {
            proof {
                assert forall|b: u32| 1 <= b < c + 1 implies (codes@.contains(b)
                    <==> mode_bit_set(mode, b)) by {}
            }
        }
        c = c + 1;
    }
    codes
}

/// Every backslash replaced by a forward slash.
pub open spec fn slashify(s: Seq<char>) -> Seq<char> {
    Seq::new(s.len(), |i: int| if s[i] == '\\' { '/' } else { s[i] })
}

/// Every left-to-right, non-overlapping occurrence of `p` removed from
/// `s`, the way a replacement by the empty string scans.
pub open spec fn remove_pattern(s: Seq<char>, p: Seq<char>) -> Seq<char>
    recommends
        p.len() > 0,
    decreases s.len(),
{
    if s.len() == 0 {
        s
    } else if p.len() > 0 && s.len() >= p.len() && s.subrange(0, p.len() as int) == p {
        remove_pattern(s.skip(p.len() as int), p)
    } else {
        seq![s[0]] + remove_pattern(s.skip(1), p)
    }
}

/// A stored entry name turned into a relative path: backslashes become
/// slashes, then every `../` and every `./` is dropped.
pub open spec fn normalized_name(s: Seq<char>) -> Seq<char> {
    remove_pattern(remove_pattern(slashify(s), seq!['.', '.', '/']), seq!['.', '/'])
}

/// Whether `p` occurs in `s` at position `i`.
fn pattern_at(s: &str, pat: &str, i: usize) -> (b: bool)
    requires
        i + pat@.len() <= s@.len(),
    ensures
        b == (s@.subrange(i as int, i + pat@.len()) == pat@),
{
    let n = s.unicode_len();
    let m = pat.unicode_len();
    let mut k: usize = 0;
    while k < m
        invariant
            k <= m,
            m == pat@.len(),
            n == s@.len(),
            i + m <= n,
            forall|j: int| 0 <= j < k ==> s@[i + j] == pat@[j],
        decreases m - k,
    {
        if s.get_char(i + k) != pat.get_char(k) {
            proof {
                if s@.subrange(i as int, i + pat@.len()) == pat@ {
                    assert(s@.subrange(i as int, i + pat@.len())[k as int] == s@[i + k]);
                }
            }
            return false;
        }
        k = k + 1;
    }
    proof {
        assert(s@.subrange(i as int, i + pat@.len()) =~= pat@);
    }
    true
}

/// Remove every left-to-right, non-overlapping occurrence of `pat`.
fn remove_occurrences(s: &str, pat: &str) -> (r: String)
    requires
        pat@.len() >= 1,
    ensures
        r@ == remove_pattern(s@, pat@),
{
    let n = s.unicode_len();
    let m = pat.unicode_len();
    let mut out = String::new();
    let mut i: usize = 0;
    proof {
        assert(s@.skip(0) =~= s@);
        assert(out@ =~= Seq::<char>::empty());
        assert(out@ + remove_pattern(s@, pat@) =~= remove_pattern(s@, pat@));
    }
    while i < n
        invariant
            i <= n,
            n == s@.len(),
            m == pat@.len(),
            m >= 1,
            remove_pattern(s@, pat@) == out@ + remove_pattern(s@.skip(i as int), pat@),
        decreases n - i,
    {
        let tail_matches = if m <= n - i {
            pattern_at(s, pat, i)
        } else {
            false
        };
        let ghost tail = s@.skip(i as int);
        if tail_matches {
            proof {
                assert(tail.subrange(0, m as int) =~= s@.subrange(i as int, i + m));
                assert(remove_pattern(tail, pat@) == remove_pattern(tail.skip(m as int), pat@));
                assert(tail.skip(m as int) =~= s@.skip(i + m));
            }
            i = i + m;
        } else {
            proof {
                if m <= tail.len() {
                    assert(tail.subrange(0, m as int) =~= s@.subrange(i as int, i + m));
                }
                assert(remove_pattern(tail, pat@) == seq![s@[i as int]] + remove_pattern(
                    tail.skip(1),
                    pat@,
                ));
                assert(tail.skip(1) =~= s@.skip(i + 1));
            }
            let ghost prev = out@;
            out.append(s.substring_char(i, i + 1));
            proof {
                assert(s@.subrange(i as int, i + 1) =~= seq![s@[i as int]]);
                assert(prev + (seq![s@[i as int]] + remove_pattern(s@.skip(i + 1), pat@)) =~= out@
                    + remove_pattern(s@.skip(i + 1), pat@));
            }
            i = i + 1;
        }
    }
    proof {
        assert(s@.skip(n as int) =~= Seq::<char>::empty());
        assert(remove_pattern(Seq::<char>::empty(), pat@) =~= Seq::<char>::empty());
        assert(out@ + Seq::<char>::empty() =~= out@);
    }
    out
}

/// Replace every backslash with a forward slash.
fn slashify_exec(s: &str) -> (r: String)
    ensures
        r@ == slashify(s@),
{
    let n = s.unicode_len();
    let mut out = String::new();
    let mut i: usize = 0;
    proof {
        assert(out@ =~= slashify(s@).subrange(0, 0));
    }
    while i < n
        invariant
            i <= n,
            n == s@.len(),
            out@ == slashify(s@).subrange(0, i as int),
        decreases n - i,
    {
        let c = s.get_char(i);
        if c == '\\' {
            out.append("/");
            proof {
                reveal_strlit("/");
                assert(out@ =~= slashify(s@).subrange(0, i + 1));
            }
        } else {
            out.append(s.substring_char(i, i + 1));
            proof {
                assert(s@.subrange(i as int, i + 1) =~= seq![s@[i as int]]);
                assert(out@ =~= slashify(s@).subrange(0, i + 1));
            }
        }
        i = i + 1;
    }
    proof {
        assert(out@ =~= slashify(s@));
    }
    out
}

/// Normalize a stored entry name into a relative path, e.g.
/// `../A/../A/./B.txt` becomes `A/A/B.txt`.
pub fn normalize_file_name(file_name: &str) -> (r: String)
    ensures
        r@ == normalized_name(file_name@),
{
    let slashed = slashify_exec(file_name);
    proof {
        reveal_strlit("../");
        reveal_strlit("./");
        assert("../"@ =~= seq!['.', '.', '/']);
        assert("./"@ =~= seq!['.', '/']);
    }
    let step = remove_occurrences(slashed.as_str(), "../");
    remove_occurrences(step.as_str(), "./")
}

/// A directory joined with a relative name.
pub open spec fn joined_path(dir: Seq<char>, name: Seq<char>) -> Seq<char> {
    dir + seq!['/'] + name
}

/// The views of a sequence of path strings.
pub open spec fn path_views(s: Seq<String>) -> Seq<Seq<char>> {
    s.map_values(|p: String| p@)
}

/// The paths selected for deletion among the first `i` entries: an entry
/// is kept when the observed on-disk size of its candidate path equals the
/// entry's recorded uncompressed size.
pub open spec fn delete_selection(
    headers: Seq<EntryModel>,
    dir: Seq<char>,
    observed: Seq<Option<u64>>,
    i: int,
) -> Seq<Seq<char>>
    recommends
        i <= headers.len(),
        observed.len() == headers.len(),
    decreases i,
{
    if i <= 0 {
        Seq::empty()
    } else {
        delete_selection(headers, dir, observed, i - 1) + (if observed[i - 1] == Some(
            headers[i - 1].uncompressed_size as u64,
        ) {
            seq![joined_path(dir, normalized_name(headers[i - 1].name))]
        } else {
            Seq::empty()
        })
    }
}

/// Select the archive entries whose on-disk counterparts may be deleted:
/// entry `k` is kept exactly when `observed_sizes[k]` — the size of the
/// regular file at the entry's candidate path, if one exists — equals the
/// entry's recorded uncompressed size. The candidate path is the search
/// path joined with the normalized entry name.
pub fn search_zip_content_path_to_delete(
    headers: &Vec<CentralDirectoryFileHeader>,
    search_path: &str,
    observed_sizes: &Vec<Option<u64>>,
) -> (paths: Vec<String>)
    requires
        observed_sizes@.len() == headers@.len(),
    ensures
        path_views(paths@) == delete_selection(
            crate::zip::entry_views(headers@),
            search_path@,
            observed_sizes@,
            headers@.len() as int,
        ),
{
    let ghost models = crate::zip::entry_views(headers@);
    let mut paths: Vec<String> = Vec::new();
    let mut i: usize = 0;
    let n = headers.len();
    proof {
        assert(path_views(paths@) =~= Seq::<Seq<char>>::empty());
    }
    while i < n
        invariant
            i <= n,
            n == headers@.len(),
            observed_sizes@.len() == n,
            models == crate::zip::entry_views(headers@),
            path_views(paths@) == delete_selection(models, search_path@, observed_sizes@, i as int),
        decreases n - i,
    {
        let header = &headers[i];
        let name = normalize_file_name(header.file_name.as_str());
        let mut full = String::from_str(search_path);
        full.append("/");
        full.append(name.as_str());
        proof {
            reveal_strlit("/");
            assert(full@ =~= joined_path(search_path@, normalized_name(models[i as int].name)));
        }
        let keep = match observed_sizes[i] {
            Some(sz) => sz == header.uncompressed_size as u64,
            None => false,
        };
        let ghost prev = paths@;
        if keep {
            paths.push(full);
        }
        proof {
            if keep {
                assert(path_views(paths@) =~= path_views(prev) + seq![
                    joined_path(search_path@, normalized_name(models[i as int].name)),
                ]);
            } else {
                assert(path_views(paths@) + Seq::<Seq<char>>::empty() =~= path_views(paths@));
            }
        }
        i = i + 1;
    }
    paths
}

/// The number of separators in a path.
pub open spec fn depth_of(p: Seq<char>) -> nat
    decreases p.len(),
{
    if p.len() == 0 {
        0
    } else {
        (if p[0] == '/' {
            1nat
        } else {
            0nat
        }) + depth_of(p.skip(1))
    }
}

/// Plain lexicographic order on character sequences.
pub open spec fn lex_le(a: Seq<char>, b: Seq<char>) -> bool
    decreases a.len(),
{
    if a.len() == 0 {
        true
    } else if b.len() == 0 {
        false
    } else if a[0] != b[0] {
        (a[0] as u32) < (b[0] as u32)
    } else {
        lex_le(a.skip(1), b.skip(1))
    }
}

/// The removal order: deeper paths first, equal depths lexicographically.
pub open spec fn path_le(a: Seq<char>, b: Seq<char>) -> bool {
    depth_of(a) > depth_of(b) || (depth_of(a) == depth_of(b) && lex_le(a, b))
}

proof fn lemma_lex_le_total(a: Seq<char>, b: Seq<char>)
    ensures
        lex_le(a, b) || lex_le(b, a),
    decreases a.len(),
{
    if a.len() > 0 && b.len() > 0 {
        if a[0] == b[0] {
            lemma_lex_le_total(a.skip(1), b.skip(1));
        } else if a[0] as u32 == b[0] as u32 {
            vstd::utf8::char_u32_cast(a[0], a[0] as u32);
            vstd::utf8::char_u32_cast(b[0], b[0] as u32);
        }
    }
}

proof fn lemma_lex_le_trans(a: Seq<char>, b: Seq<char>, c: Seq<char>)
    requires
        lex_le(a, b),
        lex_le(b, c),
    ensures
        lex_le(a, c),
    decreases a.len(),
{
    if a.len() > 0 && b.len() > 0 && c.len() > 0 && a[0] == b[0] && b[0] == c[0] {
        lemma_lex_le_trans(a.skip(1), b.skip(1), c.skip(1));
    }
}

/// Law: the removal order can compare any two paths.
pub proof fn lemma_path_le_total(a: Seq<char>, b: Seq<char>)
    ensures
        path_le(a, b) || path_le(b, a),
{
    if depth_of(a) == depth_of(b) {
        lemma_lex_le_total(a, b);
    }
}

/// Law: the removal order is transitive.
pub proof fn lemma_path_le_trans(a: Seq<char>, b: Seq<char>, c: Seq<char>)
    requires
        path_le(a, b),
        path_le(b, c),
    ensures
        path_le(a, c),
{
    if depth_of(a) == depth_of(b) && depth_of(b) == depth_of(c) {
        lemma_lex_le_trans(a, b, c);
    }
}

/// Count the separators of a path.
fn count_separators(p: &str) -> (d: usize)
    ensures
        d == depth_of(p@),
{
    let n = p.unicode_len();
    let mut d: usize = 0;
    let mut i: usize = 0;
    proof {
        assert(p@.skip(0) =~= p@);
    }
    while i < n
        invariant
            i <= n,
            n == p@.len(),
            d <= i,
            depth_of(p@) == d + depth_of(p@.skip(i as int)),
        decreases n - i,
    {
        let ghost tail = p@.skip(i as int);
        proof {
            assert(tail.skip(1) =~= p@.skip(i + 1));
        }
        if p.get_char(i) == '/' {
            d = d + 1;
        }
        i = i + 1;
    }
    proof {
        assert(p@.skip(n as int) =~= Seq::<char>::empty());
    }
    d
}

/// Compare two paths lexicographically.
fn lex_le_exec(a: &str, b: &str) -> (r: bool)
    ensures
        r == lex_le(a@, b@),
{
    let na = a.unicode_len();
    let nb = b.unicode_len();
    let mut i: usize = 0;
    proof {
        assert(a@.skip(0) =~= a@);
        assert(b@.skip(0) =~= b@);
    }
    while i < na && i < nb
        invariant
            i <= na,
            i <= nb,
            na == a@.len(),
            nb == b@.len(),
            lex_le(a@, b@) == lex_le(a@.skip(i as int), b@.skip(i as int)),
        decreases na - i,
    {
        let ca = a.get_char(i);
        let cb = b.get_char(i);
        proof {
            assert(a@.skip(i as int).skip(1) =~= a@.skip(i + 1));
            assert(b@.skip(i as int).skip(1) =~= b@.skip(i + 1));
        }
        if ca != cb {
            return (ca as u32) < (cb as u32);
        }
        i = i + 1;
    }
    if i == na {
        proof {
            assert(a@.skip(i as int).len() == 0);
        }
        true
    } else {
        proof {
            assert(b@.skip(i as int).len() == 0);
            assert(a@.skip(i as int).len() > 0);
        }
        false
    }
}

/// Compare two paths in removal order.
fn path_le_exec(a: &str, b: &str) -> (r: bool)
    ensures
        r == path_le(a@, b@),
{
    let da = count_separators(a);
    let db = count_separators(b);
    if da > db {
        true
    } else if da < db {
        false
    } else {
        lex_le_exec(a, b)
    }
}

proof fn lemma_insert_to_multiset(s: Seq<String>, pos: int, x: String)
    requires
        0 <= pos <= s.len(),
    ensures
        s.insert(pos, x).to_multiset() == s.to_multiset().insert(x),
{
    broadcast use vstd::seq_lib::group_to_multiset_ensures;
    broadcast use vstd::multiset::group_multiset_axioms;

    let a = s.subrange(0, pos);
    let b = s.subrange(pos, s.len() as int);
    assert(s =~= a + b);
    assert(s.insert(pos, x) =~= a.push(x) + b);
    lemma_multiset_commutative(a, b);
    lemma_multiset_commutative(a.push(x), b);
    assert(a.push(x).to_multiset() =~= a.to_multiset().insert(x));
    assert(a.to_multiset().insert(x).add(b.to_multiset()) =~= a.to_multiset().add(
        b.to_multiset(),
    ).insert(x));
}

/// Sort paths for removal: deepest first, ties lexicographic. The result
/// holds the same paths — as a multiset — in an order where every earlier
/// path precedes every later one under the removal order.
pub fn sort_path_by_depth(paths: &mut Vec<String>)
    ensures
        final(paths)@.to_multiset() == old(paths)@.to_multiset(),
        forall|k1: int, k2: int|
            0 <= k1 < k2 < final(paths)@.len() ==> path_le(
                final(paths)@[k1]@,
                final(paths)@[k2]@,
            ),
{
    broadcast use vstd::seq_lib::group_to_multiset_ensures;
    broadcast use vstd::multiset::group_multiset_axioms;

    let mut out: Vec<String> = Vec::new();
    while paths.len() > 0
        invariant
            out@.to_multiset().add(paths@.to_multiset()) == old(paths)@.to_multiset(),
            forall|k1: int, k2: int|
                0 <= k1 < k2 < out@.len() ==> path_le(out@[k1]@, out@[k2]@),
        decreases paths@.len(),
    {
        let ghost paths_before = paths@;
        let x = paths.remove(0);
        proof {
            broadcast use vstd::seq_lib::group_to_multiset_ensures;
            broadcast use vstd::multiset::group_multiset_axioms;

            assert(paths_before[0] == x);
            assert(paths_before.contains(x));
            assert(paths_before.remove(0).to_multiset() =~= paths_before.to_multiset().remove(
                x,
            ));
            assert(paths_before.to_multiset().count(x) > 0);
        }
        let mut pos: usize = 0;
        while pos < out.len() && path_le_exec(out[pos].as_str(), x.as_str())
            invariant
                pos <= out@.len(),
                forall|k: int| 0 <= k < pos ==> path_le(out@[k]@, x@),
            decreases out@.len() - pos,
        {
            pos = pos + 1;
        }
        proof {
            if pos < out@.len() {
                lemma_path_le_total(out@[pos as int]@, x@);
                assert(path_le(x@, out@[pos as int]@));
                assert forall|k: int| pos <= k < out@.len() implies path_le(x@, out@[k]@) by {
                    if k > pos {
                        lemma_path_le_trans(x@, out@[pos as int]@, out@[k]@);
                    }
                }
            }
        }
        let ghost out_before = out@;
        out.insert(pos, x);
        proof {
            broadcast use vstd::seq_lib::group_to_multiset_ensures;
            broadcast use vstd::multiset::group_multiset_axioms;

            lemma_insert_to_multiset(out_before, pos as int, x);
            out_before.insert_ensures(pos as int, x);
            assert forall|k1: int, k2: int|
                0 <= k1 < k2 < out@.len() implies path_le(out@[k1]@, out@[k2]@) by {
                if k1 < pos && k2 < pos {
                } else if k1 < pos && k2 == pos {
                } else if k1 < pos && k2 > pos {
                    assert(out@[k2] == out_before[k2 - 1]);
                } else if k1 == pos {
                    assert(out@[k2] == out_before[k2 - 1]);
                } else {
                    assert(out@[k1] == out_before[k1 - 1]);
                    assert(out@[k2] == out_before[k2 - 1]);
                }
            }
            assert(out@.to_multiset().add(paths@.to_multiset()) =~= out_before.to_multiset().insert(
                x,
            ).add(paths_before.to_multiset().remove(x)));
            assert(out_before.to_multiset().insert(x).add(paths_before.to_multiset().remove(x))
                =~= out_before.to_multiset().add(paths_before.to_multiset()));
        }
    }
    proof {
        broadcast use vstd::seq_lib::group_to_multiset_ensures;
        broadcast use vstd::multiset::group_multiset_axioms;

        assert(paths@.to_multiset().len() == 0);
        assert(paths@.to_multiset() =~= Multiset::<String>::empty());
        assert(out@.to_multiset().add(Multiset::<String>::empty()) =~= out@.to_multiset());
    }
    *paths = out;
}

} // verus!
