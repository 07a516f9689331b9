//! Text ordering and path canonicalization.
//!
//! Directory signatures are built by sorting directory names, removing
//! adjacent repeats and joining with commas. The order is lexicographic
//! by character code point; paths use '/' as the separator, and the
//! catalogue stores a directory and a file name joined by one separator.

use vstd::prelude::*;
use vstd::multiset::Multiset;
use vstd::relations::{sorted_by, total_ordering};
use vstd::seq_lib::lemma_sorted_unique;

verus! {

/// Lexicographic "less than or equal" on character sequences, by code point.
pub open spec fn chars_leq(a: Seq<char>, b: Seq<char>) -> bool
    decreases a.len(),
{
    if a.len() == 0 {
        true
    } else if b.len() == 0 {
        false
    } else if a[0] == b[0] {
        chars_leq(a.drop_first(), b.drop_first())
    } else {
        (a[0] as u32) < (b[0] as u32)
    }
}

/// The comparison as a first-class relation.
pub open spec fn leq_fn() -> spec_fn(Seq<char>, Seq<char>) -> bool {
    |a: Seq<char>, b: Seq<char>| chars_leq(a, b)
}

pub proof fn lemma_chars_leq_refl(a: Seq<char>)
    ensures
        chars_leq(a, a),
    decreases a.len(),
{
    if a.len() > 0 {
        lemma_chars_leq_refl(a.drop_first());
    }
}

pub proof fn lemma_chars_leq_antisym(a: Seq<char>, b: Seq<char>)
    requires
        chars_leq(a, b),
        chars_leq(b, a),
    ensures
        a == b,
    decreases a.len(),
{
    if a.len() == 0 {
        assert(b.len() == 0);
        assert(a =~= b);
    } else {
        assert(b.len() > 0);
        if a[0] == b[0] {
            let ad = a.drop_first();
            let bd = b.drop_first();
            lemma_chars_leq_antisym(ad, bd);
            assert(ad.len() == bd.len());
            assert(a.len() == ad.len() + 1);
            assert(b.len() == bd.len() + 1);
            assert forall|i: int| 0 <= i < a.len() implies a[i] == b[i] by {
                if i > 0 {
                    assert(a[i] == ad[i - 1]);
                    assert(b[i] == bd[i - 1]);
                }
            }
            assert(a =~= b);
        }
    }
}

pub proof fn lemma_chars_leq_trans(a: Seq<char>, b: Seq<char>, c: Seq<char>)
    requires
        chars_leq(a, b),
        chars_leq(b, c),
    ensures
        chars_leq(a, c),
    decreases a.len(),
{
    if a.len() > 0 && b.len() > 0 && c.len() > 0 {
        if a[0] == b[0] && b[0] == c[0] {
            lemma_chars_leq_trans(a.drop_first(), b.drop_first(), c.drop_first());
        }
    }
}

pub proof fn lemma_chars_leq_connected(a: Seq<char>, b: Seq<char>)
    ensures
        chars_leq(a, b) || chars_leq(b, a),
    decreases a.len(),
{
    if a.len() > 0 && b.len() > 0 {
        if a[0] == b[0] {
            lemma_chars_leq_connected(a.drop_first(), b.drop_first());
        } else {
            if a[0] as u32 == b[0] as u32 {
                vstd::utf8::char_u32_cast(a[0], a[0] as u32);
                vstd::utf8::char_u32_cast(b[0], b[0] as u32);
                assert(false);
            }
        }
    }
}

/// The comparison is a total ordering, so sorting by it is canonical.
pub proof fn lemma_leq_fn_total_ordering()
    ensures
        total_ordering(leq_fn()),
{
    let r = leq_fn();
    assert forall|a: Seq<char>| #[trigger] r(a, a) by {
        lemma_chars_leq_refl(a);
    }
    assert forall|a: Seq<char>, b: Seq<char>| #[trigger] r(a, b) && #[trigger] r(b, a) implies a == b by {
        lemma_chars_leq_antisym(a, b);
    }
    assert forall|a: Seq<char>, b: Seq<char>, c: Seq<char>|
        #[trigger] r(a, b) && #[trigger] r(b, c) implies r(a, c) by {
        lemma_chars_leq_trans(a, b, c);
    }
    assert forall|a: Seq<char>, b: Seq<char>| !(#[trigger] r(a, b)) implies r(b, a) by {
        lemma_chars_leq_connected(a, b);
    }
}

fn leq_from(a: &str, b: &str, i: usize) -> (r: bool)
    requires
        i <= a@.len(),
        i <= b@.len(),
    ensures
        r == chars_leq(a@.skip(i as int), b@.skip(i as int)),
    decreases a@.len() - i,
{
    let alen = a.unicode_len();
    let blen = b.unicode_len();
    proof {
        let sa = a@.skip(i as int);
        let sb = b@.skip(i as int);
        if i < alen && i < blen {
            assert(sa[0] == a@[i as int]);
            assert(sb[0] == b@[i as int]);
            assert(sa.drop_first() =~= a@.skip(i as int + 1));
            assert(sb.drop_first() =~= b@.skip(i as int + 1));
        }
    }
    if i == alen {
        true
    } else if i == blen {
        false
    } else {
        let ca = a.get_char(i);
        let cb = b.get_char(i);
        if ca == cb {
            leq_from(a, b, i + 1)
        } else {
            (ca as u32) < (cb as u32)
        }
    }
}

/// Decides the lexicographic comparison on two strings.
pub fn string_leq(a: &String, b: &String) -> (r: bool)
    ensures
        r == chars_leq(a@, b@),
{
    let r = leq_from(a.as_str(), b.as_str(), 0);
    proof {
        assert(a@.skip(0) =~= a@);
        assert(b@.skip(0) =~= b@);
    }
    r
}

/// The character sequences of a sequence of strings.
pub open spec fn views_of(v: Seq<String>) -> Seq<Seq<char>> {
    v.map_values(|s: String| s@)
}

/// Sorts strings into the canonical lexicographic order.
pub fn sort_strings(v: Vec<String>) -> (r: Vec<String>)
    ensures
        views_of(r@) == views_of(v@).sort_by(leq_fn()),
{
    broadcast use vstd::seq_lib::group_seq_properties;

    let ghost orig = views_of(v@);
    let mut work = v;
    let mut out: Vec<String> = Vec::new();
    proof {
        vstd::seq_lib::lemma_multiset_commutative(views_of(out@), views_of(work@));
        assert(views_of(out@) + views_of(work@) =~= orig);
    }
    while work.len() > 0
        invariant
            sorted_by(views_of(out@), leq_fn()),
            forall|i: int, j: int|
                0 <= i < out@.len() && 0 <= j < work@.len() ==> chars_leq(
                    #[trigger] out@[i]@,
                    #[trigger] work@[j]@,
                ),
            views_of(out@).to_multiset().add(views_of(work@).to_multiset())
                == orig.to_multiset(),
        decreases work.len(),
    {
        let mut m: usize = 0;
        let mut k: usize = 1;
        proof {
            lemma_chars_leq_refl(work@[0]@);
        }
        while k < work.len()
            invariant
                work@.len() > 0,
                0 <= m < work@.len(),
                m < k <= work@.len() || (k <= work@.len() && m == 0),
                forall|j: int| 0 <= j < k ==> chars_leq(work@[m as int]@, #[trigger] work@[j]@),
            decreases work.len() - k,
        {
            if !string_leq(&work[m], &work[k]) {
                proof {
                    lemma_chars_leq_connected(work@[m as int]@, work@[k as int]@);
                    assert forall|j: int| 0 <= j < k + 1 implies chars_leq(
                        work@[k as int]@,
                        #[trigger] work@[j]@,
                    ) by {
                        if j < k {
                            lemma_chars_leq_trans(work@[k as int]@, work@[m as int]@, work@[j]@);
                        } else {
                            lemma_chars_leq_refl(work@[k as int]@);
                        }
                    }
                }
                m = k;
            } else {
                proof {
                    lemma_chars_leq_refl(work@[m as int]@);
                }
            }
            k = k + 1;
        }
        proof {
            lemma_chars_leq_refl(work@[m as int]@);
        }
        let ghost old_out = out@;
        let ghost old_work = work@;
        let x = work.remove(m);
        out.push(x);
        proof {
            broadcast use vstd::seq_lib::group_to_multiset_ensures;

            assert(views_of(out@) =~= views_of(old_out).push(x@));
            assert(views_of(work@) =~= views_of(old_work).remove(m as int));
            assert(views_of(old_work)[m as int] == x@);
            assert(views_of(out@).to_multiset() =~= views_of(old_out).to_multiset().insert(x@));
            assert(views_of(work@).to_multiset() =~= views_of(old_work).to_multiset().remove(x@));
            assert(views_of(old_work).to_multiset().count(x@) > 0);
            assert(views_of(out@).to_multiset().add(views_of(work@).to_multiset())
                =~= orig.to_multiset());
            // the new last element is above everything already emitted
            assert forall|i: int, j: int|
                0 <= i < j < views_of(out@).len() implies leq_fn()(
                    views_of(out@)[i],
                    views_of(out@)[j],
                ) by {}
        }
    }
    proof {
        lemma_leq_fn_total_ordering();
        orig.lemma_sort_by_ensures(leq_fn());
        assert(views_of(work@).to_multiset() =~= Multiset::empty());
        assert(views_of(out@).to_multiset() =~= orig.to_multiset());
        lemma_sorted_unique(views_of(out@), orig.sort_by(leq_fn()), leq_fn());
    }
    out
}

/// Removes adjacent repeats, keeping the last of each run.
pub open spec fn dedup_adjacent(s: Seq<Seq<char>>) -> Seq<Seq<char>>
    decreases s.len(),
{
    if s.len() == 0 {
        s
    } else if s.len() == 1 {
        s
    } else if s.last() == s[s.len() - 2] {
        dedup_adjacent(s.drop_last())
    } else {
        dedup_adjacent(s.drop_last()).push(s.last())
    }
}

pub proof fn lemma_dedup_adjacent_last(s: Seq<Seq<char>>)
    requires
        s.len() > 0,
    ensures
        dedup_adjacent(s).len() > 0,
        dedup_adjacent(s).last() == s.last(),
    decreases s.len(),
{
    if s.len() > 1 && s.last() == s[s.len() - 2] {
        lemma_dedup_adjacent_last(s.drop_last());
        assert(s.drop_last().last() == s[s.len() - 2]);
    }
}

/// Removes adjacent repeated strings.
pub fn dedup_strings(v: &Vec<String>) -> (r: Vec<String>)
    ensures
        views_of(r@) == dedup_adjacent(views_of(v@)),
{
    let mut out: Vec<String> = Vec::new();
    let mut i: usize = 0;
    while i < v.len()
        invariant
            0 <= i <= v@.len(),
            views_of(out@) == dedup_adjacent(views_of(v@.take(i as int))),
        decreases v@.len() - i,
    {
        let ghost prefix = views_of(v@.take(i as int));
        let ghost next = views_of(v@.take(i as int + 1));
        proof {
            assert(next.drop_last() =~= prefix);
            assert(next.last() == v@[i as int]@);
        }
        if out.len() == 0 {
            proof {
                if prefix.len() > 0 {
                    lemma_dedup_adjacent_last(prefix);
                    assert(false);
                }
                assert(next =~= seq![v@[i as int]@]);
            }
            out.push(v[i].clone());
            proof {
                assert(views_of(out@) =~= seq![v@[i as int]@]);
            }
        } else {
            proof {
                assert(prefix.len() > 0) by {
                    if prefix.len() == 0 {
                        assert(dedup_adjacent(prefix).len() == 0);
                    }
                }
                lemma_dedup_adjacent_last(prefix);
                assert(views_of(out@).last() == prefix.last());
            }
            let last_idx = out.len() - 1;
            if string_eq(&out[last_idx], &v[i]) {
                proof {
                    assert(next.last() == next[next.len() - 2]);
                    assert(views_of(out@) == dedup_adjacent(next));
                }
            } else {
                out.push(v[i].clone());
                proof {
                    assert(next.last() != next[next.len() - 2]);
                    assert(views_of(out@) =~= dedup_adjacent(prefix).push(next.last()));
                }
            }
        }
        i = i + 1;
    }
    proof {
        assert(v@.take(i as int) =~= v@);
    }
    out
}

/// Decides equality of two strings' character sequences.
pub fn string_eq(a: &String, b: &String) -> (r: bool)
    ensures
        r == (a@ == b@),
{
    a.eq(b)
}

/// The canonical form of a group of directories: sorted, without repeats.
pub open spec fn canon_dirs(dirs: Seq<Seq<char>>) -> Seq<Seq<char>> {
    dedup_adjacent(dirs.sort_by(leq_fn()))
}

/// Comma-joined text of the parts, in order.
pub open spec fn join_comma(parts: Seq<Seq<char>>) -> Seq<char>
    decreases parts.len(),
{
    if parts.len() == 0 {
        Seq::empty()
    } else if parts.len() == 1 {
        parts[0]
    } else {
        join_comma(parts.drop_last()) + seq![','] + parts.last()
    }
}

/// The directory signature of a group of directories: canonical order,
/// no repeats, comma-joined.
pub open spec fn canon_sig(dirs: Seq<Seq<char>>) -> Seq<char> {
    join_comma(canon_dirs(dirs))
}

/// Law: the directory signature is order-insensitive — any two
/// arrangements of the same directories canonicalize identically.
pub proof fn lemma_canon_sig_permutation(a: Seq<Seq<char>>, b: Seq<Seq<char>>)
    requires
        a.to_multiset() == b.to_multiset(),
    ensures
        canon_dirs(a) == canon_dirs(b),
        canon_sig(a) == canon_sig(b),
{
    lemma_leq_fn_total_ordering();
    a.lemma_sort_by_ensures(leq_fn());
    b.lemma_sort_by_ensures(leq_fn());
    lemma_sorted_unique(a.sort_by(leq_fn()), b.sort_by(leq_fn()), leq_fn());
}

/// Canonicalizes a group of directories: sorts and removes repeats.
pub fn canonical_dirs(v: Vec<String>) -> (r: Vec<String>)
    ensures
        views_of(r@) == canon_dirs(views_of(v@)),
{
    let sorted = sort_strings(v);
    dedup_strings(&sorted)
}

/// Joins parts with commas, matching `join_comma`.
pub fn join_with_commas(v: &Vec<String>) -> (r: String)
    ensures
        r@ == join_comma(views_of(v@)),
{
    let mut out = String::new();
    let mut i: usize = 0;
    proof {
        reveal_strlit(",");
    }
    while i < v.len()
        invariant
            0 <= i <= v@.len(),
            out@ == join_comma(views_of(v@.take(i as int))),
            ","@ =~= seq![','],
        decreases v@.len() - i,
    {
        let ghost prefix = views_of(v@.take(i as int));
        let ghost next = views_of(v@.take(i as int + 1));
        proof {
            assert(next.drop_last() =~= prefix);
            assert(next.last() == v@[i as int]@);
        }
        if i > 0 {
            out.append(",");
        }
        out.append(v[i].as_str());
        proof {
            if i == 0 {
                assert(next =~= seq![v@[i as int]@]);
                assert(out@ =~= join_comma(next));
            } else {
                assert(next.len() > 1);
                assert(out@ =~= join_comma(prefix) + seq![','] + next.last());
            }
        }
        i = i + 1;
    }
    proof {
        assert(v@.take(i as int) =~= v@);
    }
    out
}

/// The index of the last separator, or -1 when there is none.
pub open spec fn last_sep_index(p: Seq<char>) -> int
    decreases p.len(),
{
    if p.len() == 0 {
        -1
    } else if p.last() == '/' {
        p.len() - 1
    } else {
        last_sep_index(p.drop_last())
    }
}

pub proof fn lemma_last_sep_index_range(p: Seq<char>)
    ensures
        -1 <= last_sep_index(p) < p.len(),
        last_sep_index(p) >= 0 ==> p[last_sep_index(p)] == '/',
    decreases p.len(),
{
    if p.len() > 0 && p.last() != '/' {
        lemma_last_sep_index_range(p.drop_last());
    }
}

/// The parent directory of a path: the text before the last separator.
/// A path without a separator has the empty parent; an empty path or a
/// path whose only separator leads it gets the root.
pub open spec fn parent_of(p: Seq<char>) -> Seq<char> {
    let i = last_sep_index(p);
    if p.len() == 0 {
        seq!['/']
    } else if i < 0 {
        Seq::empty()
    } else if i == 0 {
        seq!['/']
    } else {
        p.take(i)
    }
}

/// Computes the parent directory of a path, matching `parent_of`.
pub fn parent_dir(p: &str) -> (r: String)
    ensures
        r@ == parent_of(p@),
{
    let n = p.unicode_len();
    // find the last separator by a forward scan
    let mut i: usize = 0;
    let mut found = false;
    let mut best: usize = 0;
    while i < n
        invariant
            0 <= i <= n,
            n == p@.len(),
            found ==> best < i && last_sep_index(p@.take(i as int)) == best as int,
            !found ==> last_sep_index(p@.take(i as int)) == -1,
        decreases n - i,
    {
        let c = p.get_char(i);
        proof {
            let t = p@.take(i as int + 1);
            assert(t.drop_last() =~= p@.take(i as int));
            assert(t.last() == p@[i as int]);
        }
        if c == '/' {
            found = true;
            best = i;
        }
        i = i + 1;
    }
    proof {
        assert(p@.take(n as int) =~= p@);
        reveal_strlit("/");
        assert("/"@ =~= seq!['/']);
    }
    if n == 0 {
        "/".to_owned()
    } else if !found {
        String::new()
    } else if best == 0 {
        "/".to_owned()
    } else {
        let s = p.substring_char(0, best);
        proof {
            assert(s@ =~= p@.take(best as int));
        }
        s.to_owned()
    }
}

/// A directory and a file name joined by the path separator.
pub open spec fn joined_path(dir: Seq<char>, name: Seq<char>) -> Seq<char> {
    dir + seq!['/'] + name
}

/// Joins a directory and file name with the separator, matching
/// `joined_path`.
pub fn join_path(dir: &str, name: &str) -> (r: String)
    ensures
        r@ == joined_path(dir@, name@),
{
    let mut s = dir.to_owned();
    proof {
        reveal_strlit("/");
        assert("/"@ =~= seq!['/']);
    }
    s.append("/");
    s.append(name);
    s
}

/// Mapping a function over two rearrangements of the same elements
/// yields rearrangements of the same results.
pub proof fn lemma_map_to_multiset<A, B>(a: Seq<A>, b: Seq<A>, f: spec_fn(A) -> B)
    requires
        a.to_multiset() == b.to_multiset(),
    ensures
        a.map_values(f).to_multiset() == b.map_values(f).to_multiset(),
    decreases a.len(),
{
    broadcast use vstd::seq_lib::group_to_multiset_ensures;

    if a.len() == 0 {
        assert(b.to_multiset().len() == 0);
        assert(b.len() == 0);
        assert(a.map_values(f) =~= b.map_values(f));
    } else {
        let x = a.last();
        let a1 = a.drop_last();
        assert(a =~= a1.push(x));
        assert(a.to_multiset() =~= a1.to_multiset().insert(x));
        assert(a.contains(x));
        assert(a.to_multiset().count(x) > 0);
        assert(b.to_multiset().count(x) > 0);
        assert(b.contains(x));
        let j = choose|j: int| 0 <= j < b.len() && b[j] == x;
        let b1 = b.remove(j);
        assert(b1.to_multiset() =~= b.to_multiset().remove(x));
        assert(a1.to_multiset() =~= a.to_multiset().remove(x));
        assert(a1.to_multiset() == b1.to_multiset());
        lemma_map_to_multiset(a1, b1, f);
        assert(a.map_values(f) =~= a1.map_values(f).push(f(x)));
        assert(a.map_values(f).to_multiset() =~= a1.map_values(f).to_multiset().insert(f(x)));
        assert(b1.map_values(f) =~= b.map_values(f).remove(j));
        assert(b.map_values(f)[j] == f(x));
        assert(b.map_values(f).remove(j).to_multiset() =~= b.map_values(f).to_multiset().remove(
            f(x),
        ));
        assert(b.map_values(f).to_multiset().count(f(x)) > 0) by {
            assert(b.map_values(f).contains(f(x)));
        }
        assert(b.map_values(f).to_multiset() =~= b.map_values(f).to_multiset().remove(f(x)).insert(
            f(x),
        ));
        assert(a.map_values(f).to_multiset() =~= b.map_values(f).to_multiset());
    }
}

} // verus!
