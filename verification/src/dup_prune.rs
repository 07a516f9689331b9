//! Duplicate prune planning.
//!
//! Duplicate groups are reduced to directory-signature rules: groups
//! spanning at least two directories are keyed by their canonical
//! signature, the first group of each signature stands for all of them,
//! and the user's decision for that representative is bound to the
//! signature in an insertion-ordered map.

use vstd::prelude::*;
use crate::db::DupFile;
use crate::hexnum::{is_digit_char, dec_val, parse_u64};
use crate::strutil::{canon_sig, canon_dirs, canonical_dirs, join_with_commas, parent_of, views_of, string_eq};

verus! {

/// The keep-strategies a user may attach to a duplicate group.
#[derive(Clone, Copy, Debug, PartialEq, Eq, Structural)]
#[allow(non_camel_case_types)]
pub enum KeepStrategy {
    KEEP_AS_IS,
    KEEP_THIS_OF_THESE(usize),
    KEEP_THIS_OF_ANY(usize),
    KEEP_ANY_ONE,
    KEEP_OLDEST,
    KEEP_NEWEST,
}

/// The fixed description of each strategy.
pub open spec fn strategy_text(v: KeepStrategy) -> Seq<char> {
    match v {
        KeepStrategy::KEEP_AS_IS => "Keep all versions"@,
        KeepStrategy::KEEP_THIS_OF_THESE(_) => "Keep specific version from specific versions (requires index parameter)"@,
        KeepStrategy::KEEP_THIS_OF_ANY(_) => "Keep specific version from any versions (requires index parameter)"@,
        KeepStrategy::KEEP_ANY_ONE => "Keep a random version"@,
        KeepStrategy::KEEP_OLDEST => "Keep oldest version"@,
        KeepStrategy::KEEP_NEWEST => "Keep latest version"@,
    }
}

/// Whether a strategy may serve as a default: the two index-bound
/// variants are inherently group-specific and may not.
pub open spec fn default_allowed(d: Option<KeepStrategy>) -> bool {
    match d {
        Some(KeepStrategy::KEEP_THIS_OF_THESE(_)) => false,
        Some(KeepStrategy::KEEP_THIS_OF_ANY(_)) => false,
        _ => true,
    }
}

/// The maximal run of decimal digits starting at position `p`.
pub open spec fn digits_after(s: Seq<char>, p: int) -> Seq<char>
    decreases s.len() - p,
{
    if 0 <= p < s.len() && is_digit_char(s[p]) {
        seq![s[p]] + digits_after(s, p + 1)
    } else {
        Seq::empty()
    }
}

/// Whether the text asks for an index-bound strategy under the letter:
/// the letter, a space, and at least one digit.
pub open spec fn idx_form(s: Seq<char>, c: char) -> bool {
    s.len() >= 3 && s[0] == c && s[1] == ' ' && is_digit_char(s[2])
}

/// The index an index-bound request carries.
pub open spec fn idx_value(s: Seq<char>) -> int {
    dec_val(digits_after(s, 2))
}

fn digit_at(s: &str, k: usize) -> (r: bool)
    requires
        k < s@.len(),
    ensures
        r == is_digit_char(s@[k as int]),
{
    let c = s.get_char(k) as u32;
    48 <= c && c <= 57
}

proof fn lemma_digit_run(s: Seq<char>, p: int, k: int)
    requires
        0 <= p <= k <= s.len(),
        forall|j: int| p <= j < k ==> is_digit_char(#[trigger] s[j]),
        k == s.len() || !is_digit_char(s[k]),
    ensures
        digits_after(s, p) == s.subrange(p, k),
    decreases k - p,
{
    if p < k {
        lemma_digit_run(s, p + 1, k);
        assert(digits_after(s, p) =~= s.subrange(p, k));
    } else {
        assert(digits_after(s, p) =~= s.subrange(p, k));
    }
}

impl KeepStrategy {
    /// The fixed description of this strategy.
    pub fn describe(&self) -> (r: &'static str)
        ensures
            r@ == strategy_text(*self),
    {
        match self {
            KeepStrategy::KEEP_AS_IS => "Keep all versions",
            KeepStrategy::KEEP_THIS_OF_THESE(_) => "Keep specific version from specific versions (requires index parameter)",
            KeepStrategy::KEEP_THIS_OF_ANY(_) => "Keep specific version from any versions (requires index parameter)",
            KeepStrategy::KEEP_ANY_ONE => "Keep a random version",
            KeepStrategy::KEEP_OLDEST => "Keep oldest version",
            KeepStrategy::KEEP_NEWEST => "Keep latest version",
        }
    }

    /// Parses a single-letter choice: `a` keeps all, `b N` and `c N`
    /// keep the file at 1-based index N (which must not exceed
    /// `max_idx`) among these or among any directories, `d` keeps an
    /// arbitrary one, `e` the oldest, `f` the newest. Anything else
    /// falls back to the default, which itself may not be one of the
    /// index-bound variants.
    pub fn from_str(s: &str, max_idx: usize, default: Option<KeepStrategy>) -> (r: Result<
        KeepStrategy,
        &'static str,
    >)
        ensures
            !default_allowed(default) ==> r is Err,
            default_allowed(default) ==> {
                let v = s@;
                if v.len() >= 1 && v[0] == 'a' {
                    r == Result::<KeepStrategy, &'static str>::Ok(KeepStrategy::KEEP_AS_IS)
                } else if idx_form(v, 'b') {
                    if 1 <= idx_value(v) <= max_idx {
                        r == Result::<KeepStrategy, &'static str>::Ok(
                            KeepStrategy::KEEP_THIS_OF_THESE(idx_value(v) as usize),
                        )
                    } else {
                        r is Err
                    }
                } else if idx_form(v, 'c') {
                    if 1 <= idx_value(v) <= max_idx {
                        r == Result::<KeepStrategy, &'static str>::Ok(
                            KeepStrategy::KEEP_THIS_OF_ANY(idx_value(v) as usize),
                        )
                    } else {
                        r is Err
                    }
                } else if v.len() >= 1 && v[0] == 'd' {
                    r == Result::<KeepStrategy, &'static str>::Ok(KeepStrategy::KEEP_ANY_ONE)
                } else if v.len() >= 1 && v[0] == 'e' {
                    r == Result::<KeepStrategy, &'static str>::Ok(KeepStrategy::KEEP_OLDEST)
                } else if v.len() >= 1 && v[0] == 'f' {
                    r == Result::<KeepStrategy, &'static str>::Ok(KeepStrategy::KEEP_NEWEST)
                } else {
                    match default {
                        Some(t) => r == Result::<KeepStrategy, &'static str>::Ok(t),
                        None => r is Err,
                    }
                }
            },
    {
        match default {
            Some(KeepStrategy::KEEP_THIS_OF_THESE(_)) => {
                return Err("Cannot use \"keep this of these\" rule as default rule");
            },
            Some(KeepStrategy::KEEP_THIS_OF_ANY(_)) => {
                return Err("Cannot use \"keep this of any\" rule as default rule");
            },
            _ => {},
        }
        let n = s.unicode_len();
        if n >= 1 {
            let c0 = s.get_char(0);
            if c0 == 'a' {
                return Ok(KeepStrategy::KEEP_AS_IS);
            }
            if (c0 == 'b' || c0 == 'c') && n >= 3 {
                if s.get_char(1) == ' ' {
                    let c2 = s.get_char(2) as u32;
                    if 48 <= c2 && c2 <= 57 {
                        // scan the digit run
                        let mut k: usize = 2;
                        while k < n && digit_at(s, k)
                            invariant
                                2 <= k <= n,
                                n == s@.len(),
                                forall|j: int| 2 <= j < k ==> is_digit_char(#[trigger] s@[j]),
                            decreases n - k,
                        {
                            k = k + 1;
                        }
                        proof {
                            lemma_digit_run(s@, 2, k as int);
                        }
                        let run = s.substring_char(2, k);
                        let parsed = parse_u64(run);
                        proof {
                            assert(run@ == digits_after(s@, 2));
                        }
                        let idx64 = match parsed {
                            Some(v) => v,
                            None => {
                                proof {
                                    assert(run@.len() > 0);
                                    crate::hexnum::lemma_dec_val_nonneg(run@);
                                }
                                return if c0 == 'b' {
                                    Err("Invalid index for Keep This of These strategy")
                                } else {
                                    Err("Invalid index for Keep This Of Any strategy")
                                };
                            },
                        };
                        if idx64 >= 1 && idx64 <= max_idx as u64 {
                            let idx = idx64 as usize;
                            if c0 == 'b' {
                                return Ok(KeepStrategy::KEEP_THIS_OF_THESE(idx));
                            } else {
                                return Ok(KeepStrategy::KEEP_THIS_OF_ANY(idx));
                            }
                        } else {
                            return if c0 == 'b' {
                                Err("Invalid index for Keep This of These strategy")
                            } else {
                                Err("Invalid index for Keep This Of Any strategy")
                            };
                        }
                    }
                }
            }
            if c0 != 'b' && c0 != 'c' {
                if c0 == 'd' {
                    return Ok(KeepStrategy::KEEP_ANY_ONE);
                }
                if c0 == 'e' {
                    return Ok(KeepStrategy::KEEP_OLDEST);
                }
                if c0 == 'f' {
                    return Ok(KeepStrategy::KEEP_NEWEST);
                }
            }
        }
        match default {
            Some(t) => Ok(t),
            None => Err("No default keep strategy set"),
        }
    }
}

/// A group listing line: a highlight mark or a plain branch mark, the
/// path, and a newline.
pub open spec fn lah_line(p: Seq<char>, mark: bool) -> Seq<char> {
    (if mark {
        "(*) "@
    } else {
        "+-- "@
    }) + p + "\n"@
}

/// A group listing: one marked line per path; the highlighted position
/// is 1-based.
pub open spec fn lah_lines(paths: Seq<Seq<char>>, highlighted: Option<int>) -> Seq<char>
    decreases paths.len(),
{
    if paths.len() == 0 {
        Seq::empty()
    } else {
        lah_lines(paths.drop_last(), highlighted) + lah_line(
            paths.last(),
            highlighted == Some(paths.len() as int),
        )
    }
}

/// The 1-based highlight position as the specification sees it.
pub open spec fn h_int(h: Option<usize>) -> Option<int> {
    match h {
        Some(x) => Some(x as int),
        None => None,
    }
}

/// Lists paths one per line, marking the highlighted 1-based position
/// with `(*)` and the rest with `+--`.
pub fn list_and_highlight(paths: &Vec<String>, highlighted: Option<usize>) -> (r: String)
    ensures
        r@ == lah_lines(views_of(paths@), h_int(highlighted)),
{
    let mut s = String::new();
    let mut i: usize = 0;
    proof {
        reveal_strlit("(*) ");
        reveal_strlit("+-- ");
        reveal_strlit("\n");
        assert(views_of(paths@).take(0) =~= Seq::<Seq<char>>::empty());
    }
    while i < paths.len()
        invariant
            0 <= i <= paths@.len(),
            s@ == lah_lines(views_of(paths@).take(i as int), h_int(highlighted)),
        decreases paths@.len() - i,
    {
        let ghost pre = views_of(paths@).take(i as int);
        let ghost cur = views_of(paths@).take(i as int + 1);
        proof {
            assert(cur.drop_last() =~= pre);
            assert(cur.last() == paths@[i as int]@);
            assert(cur.len() == i + 1);
        }
        let mark = match highlighted {
            Some(h) => h == i + 1,
            None => false,
        };
        if mark {
            s.append("(*) ");
        } else {
            s.append("+-- ");
        }
        s.append(paths[i].as_str());
        s.append("\n");
        proof {
            assert(s@ =~= lah_lines(pre, h_int(highlighted)) + lah_line(
                cur.last(),
                h_int(highlighted) == Some(i as int + 1),
            ));
        }
        i = i + 1;
    }
    proof {
        assert(views_of(paths@).take(i as int) =~= views_of(paths@));
    }
    s
}

/// The heading of a rule's description.
pub open spec fn rule_header(v: KeepStrategy) -> Seq<char> {
    match v {
        KeepStrategy::KEEP_AS_IS => "--- Keep as is"@,
        KeepStrategy::KEEP_THIS_OF_THESE(_) => "--- Keep marked (*) of these"@,
        KeepStrategy::KEEP_THIS_OF_ANY(_) => "--- Keep marked (*) of any"@,
        KeepStrategy::KEEP_ANY_ONE => "--- Keep one randomly"@,
        KeepStrategy::KEEP_OLDEST => "--- Keep oldest version"@,
        KeepStrategy::KEEP_NEWEST => "--- Keep latest version"@,
    }
}

/// The highlighted position a strategy asks for.
pub open spec fn highlight_of(v: KeepStrategy) -> Option<int> {
    match v {
        KeepStrategy::KEEP_THIS_OF_THESE(i) => Some(i as int),
        KeepStrategy::KEEP_THIS_OF_ANY(i) => Some(i as int),
        _ => None,
    }
}

/// A prune rule: the decision for one directory signature, with the
/// canonical directory list it applies to.
#[derive(Clone)]
pub struct DirBasedPruneRule {
    verdict: KeepStrategy,
    paths: Vec<String>,
}

impl DirBasedPruneRule {
    /// The decision this rule binds.
    pub closed spec fn spec_verdict(&self) -> KeepStrategy {
        self.verdict
    }

    /// The canonical directories this rule applies to.
    pub closed spec fn spec_paths(&self) -> Seq<Seq<char>> {
        views_of(self.paths@)
    }

    /// The decision this rule binds.
    pub fn verdict(&self) -> (r: KeepStrategy)
        ensures
            r == self.spec_verdict(),
    {
        self.verdict
    }

    /// Renders the rule: its heading, then the directories, with the
    /// kept position marked when the decision names one.
    pub fn describe(&self) -> (r: String)
        ensures
            r@ == rule_header(self.spec_verdict()) + "\n"@ + lah_lines(
                self.spec_paths(),
                highlight_of(self.spec_verdict()),
            ),
    {
        let header = match self.verdict {
            KeepStrategy::KEEP_AS_IS => "--- Keep as is",
            KeepStrategy::KEEP_THIS_OF_THESE(_) => "--- Keep marked (*) of these",
            KeepStrategy::KEEP_THIS_OF_ANY(_) => "--- Keep marked (*) of any",
            KeepStrategy::KEEP_ANY_ONE => "--- Keep one randomly",
            KeepStrategy::KEEP_OLDEST => "--- Keep oldest version",
            KeepStrategy::KEEP_NEWEST => "--- Keep latest version",
        };
        let highlighted = match self.verdict {
            KeepStrategy::KEEP_THIS_OF_THESE(i) => Some(i),
            KeepStrategy::KEEP_THIS_OF_ANY(i) => Some(i),
            _ => None,
        };
        let mut s = header.to_owned();
        s.append("\n");
        s.append(list_and_highlight(&self.paths, highlighted).as_str());
        proof {
            assert(s@ =~= rule_header(self.spec_verdict()) + "\n"@ + lah_lines(
                self.spec_paths(),
                highlight_of(self.spec_verdict()),
            ));
        }
        s
    }
}

/// The directory signature of a duplicate group.
pub open spec fn sig_of(d: DupFile) -> Seq<char> {
    canon_sig(d.all_paths().map_values(|p: Seq<char>| parent_of(p)))
}

/// The canonical directories of a duplicate group.
pub open spec fn dirs_of(d: DupFile) -> Seq<Seq<char>> {
    canon_dirs(d.all_paths().map_values(|p: Seq<char>| parent_of(p)))
}

/// Whether a group spans at least two directories; groups within one
/// directory need a file-level rule, not a directory rule.
pub open spec fn multi_dir(d: DupFile) -> bool {
    dirs_of(d).len() >= 2
}

/// Whether the group at `i` is the planner's representative: it spans
/// several directories and no earlier such group has its signature.
pub open spec fn is_picked(dups: Seq<DupFile>, i: int) -> bool {
    &&& 0 <= i < dups.len()
    &&& multi_dir(dups[i])
    &&& forall|j: int|
        0 <= j < i ==> !multi_dir(#[trigger] dups[j]) || sig_of(dups[j]) != sig_of(dups[i])
}

/// The indices of the representatives, in order.
pub open spec fn picked_list(dups: Seq<DupFile>) -> Seq<int>
    decreases dups.len(),
{
    if dups.len() == 0 {
        Seq::empty()
    } else {
        let p = picked_list(dups.drop_last());
        if is_picked(dups, dups.len() - 1) {
            p.push(dups.len() - 1)
        } else {
            p
        }
    }
}

proof fn lemma_is_picked_prefix(dups: Seq<DupFile>, m: int, i: int)
    requires
        0 <= i < m <= dups.len(),
    ensures
        is_picked(dups.take(m), i) == is_picked(dups, i),
{
    let t = dups.take(m);
    assert(t[i] == dups[i]);
    assert forall|j: int| 0 <= j < i implies (#[trigger] t[j]) == dups[j] by {}
    if is_picked(dups, i) {
        assert forall|j: int|
            0 <= j < i implies !multi_dir(#[trigger] t[j]) || sig_of(t[j]) != sig_of(t[i]) by {
            assert(t[j] == dups[j]);
        }
    }
    if is_picked(t, i) {
        assert forall|j: int|
            0 <= j < i implies !multi_dir(#[trigger] dups[j]) || sig_of(dups[j]) != sig_of(
                dups[i],
            ) by {
            assert(t[j] == dups[j]);
        }
    }
}

/// The representatives' indices are in range, picked, and increasing.
proof fn lemma_picked_props(dups: Seq<DupFile>)
    ensures
        forall|t: int|
            0 <= t < picked_list(dups).len() ==> 0 <= #[trigger] picked_list(dups)[t]
                < dups.len() && is_picked(dups, picked_list(dups)[t]),
        forall|t: int, u: int|
            0 <= t < u < picked_list(dups).len() ==> #[trigger] picked_list(dups)[t]
                < #[trigger] picked_list(dups)[u],
    decreases dups.len(),
{
    if dups.len() > 0 {
        let d1 = dups.drop_last();
        lemma_picked_props(d1);
        assert(d1 =~= dups.take(dups.len() - 1));
        assert forall|t: int|
            0 <= t < picked_list(d1).len() implies 0 <= #[trigger] picked_list(d1)[t]
            < dups.len() && is_picked(dups, picked_list(d1)[t]) by {
            lemma_is_picked_prefix(dups, dups.len() - 1, picked_list(d1)[t]);
        }
    }
}

/// A group spanning several directories always has a representative at
/// or before it with its signature.
proof fn lemma_first_pick(dups: Seq<DupFile>, j: int)
    requires
        0 <= j < dups.len(),
        multi_dir(dups[j]),
    ensures
        exists|t: int|
            0 <= t <= j && #[trigger] is_picked(dups, t) && sig_of(dups[t]) == sig_of(dups[j]),
    decreases j,
{
    if is_picked(dups, j) {
        assert(is_picked(dups, j) && sig_of(dups[j]) == sig_of(dups[j]));
    } else {
        let j2 = choose|j2: int|
            0 <= j2 < j && multi_dir(#[trigger] dups[j2]) && sig_of(dups[j2]) == sig_of(dups[j]);
        lemma_first_pick(dups, j2);
        let t = choose|t: int|
            0 <= t <= j2 && #[trigger] is_picked(dups, t) && sig_of(dups[t]) == sig_of(dups[j2]);
        assert(is_picked(dups, t) && sig_of(dups[t]) == sig_of(dups[j]));
    }
}

/// A picked index is in the representatives' list.
proof fn lemma_picked_complete(dups: Seq<DupFile>, t: int)
    requires
        is_picked(dups, t),
    ensures
        picked_list(dups).contains(t),
    decreases dups.len(),
{
    if t == dups.len() - 1 {
        assert(picked_list(dups) == picked_list(dups.drop_last()).push(t));
        assert(picked_list(dups).last() == t);
    } else {
        assert(dups.drop_last() =~= dups.take(dups.len() - 1));
        lemma_is_picked_prefix(dups, dups.len() - 1, t);
        lemma_picked_complete(dups.drop_last(), t);
        let p = picked_list(dups.drop_last());
        let u = choose|u: int| 0 <= u < p.len() && p[u] == t;
        if is_picked(dups, dups.len() - 1) {
            assert(picked_list(dups)[u] == t);
        } else {
            assert(picked_list(dups)[u] == t);
        }
    }
}

/// The signature each representative contributes.
pub open spec fn picked_sigs(dups: Seq<DupFile>) -> Seq<Seq<char>> {
    picked_list(dups).map_values(|ix: int| sig_of(dups[ix]))
}

/// Picks the planner's representatives: the first group of each
/// distinct multi-directory signature, in order.
#[verifier::rlimit(100)]
pub fn pick_dups_for_rules<'a>(dups: &'a Vec<DupFile>) -> (r: Vec<&'a DupFile>)
    ensures
        r@.len() == picked_list(dups@).len(),
        forall|t: int|
            0 <= t < r@.len() ==> *(#[trigger] r@[t]) == dups@[picked_list(dups@)[t]],
{
    let mut seen: Vec<String> = Vec::new();
    let mut out: Vec<&DupFile> = Vec::new();
    let mut i: usize = 0;
    proof {
        assert(dups@.take(0) =~= Seq::<DupFile>::empty());
        assert(views_of(seen@) =~= picked_sigs(dups@.take(0)));
    }
    while i < dups.len()
        invariant
            0 <= i <= dups@.len(),
            out@.len() == picked_list(dups@.take(i as int)).len(),
            forall|t: int|
                0 <= t < out@.len() ==> *(#[trigger] out@[t]) == dups@.take(i as int)[picked_list(
                    dups@.take(i as int),
                )[t]],
            views_of(seen@) == picked_sigs(dups@.take(i as int)),
        decreases dups@.len() - i,
    {
        let ghost prefix = dups@.take(i as int);
        let ghost cur = dups@.take(i as int + 1);
        proof {
            assert(cur.drop_last() =~= prefix);
            assert(cur[i as int] == dups@[i as int]);
            lemma_is_picked_prefix(dups@, i as int + 1, i as int);
            lemma_picked_props(prefix);
            assert(views_of(seen@).len() == seen@.len());
            assert(picked_sigs(prefix).len() == picked_list(prefix).len());
        }
        let d = &dups[i];
        let pdirs = d.parent_dirs();
        let canon = canonical_dirs(pdirs);
        proof {
            assert(views_of(canon@) == dirs_of(dups@[i as int]));
            assert(views_of(canon@).len() == canon@.len());
        }
        if canon.len() <= 1 {
            proof {
                assert(!multi_dir(dups@[i as int]));
                assert(!is_picked(cur, i as int));
                assert(picked_list(cur) == picked_list(prefix));
                assert forall|t: int|
                    0 <= t < out@.len() implies *(#[trigger] out@[t]) == cur[picked_list(cur)[t]] by {
                    assert(0 <= picked_list(prefix)[t] < prefix.len());
                    assert(cur[picked_list(prefix)[t]] == prefix[picked_list(prefix)[t]]);
                }
                assert(picked_sigs(cur) =~= picked_sigs(prefix)) by {
                    assert(picked_list(cur) == picked_list(prefix));
                    assert forall|t: int|
                        0 <= t < picked_list(cur).len() implies #[trigger] picked_sigs(cur)[t]
                        == picked_sigs(prefix)[t] by {
                        assert(0 <= picked_list(prefix)[t] < prefix.len());
                        assert(cur[picked_list(prefix)[t]] == prefix[picked_list(prefix)[t]]);
                    }
                }
            }
        } else {
            let key = join_with_commas(&canon);
            proof {
                assert(key@ == sig_of(dups@[i as int]));
                assert(multi_dir(dups@[i as int]));
            }
            let mut found = false;
            let mut u: usize = 0;
            while u < seen.len()
                invariant
                    0 <= u <= seen@.len(),
                    found ==> exists|w: int|
                        0 <= w < seen@.len() && (#[trigger] seen@[w])@ == key@,
                    !found ==> forall|w: int| 0 <= w < u ==> (#[trigger] seen@[w])@ != key@,
                decreases seen@.len() - u,
            {
                if string_eq(&seen[u], &key) {
                    found = true;
                }
                u = u + 1;
            }
            if found {
                proof {
                    let w = choose|w: int| 0 <= w < seen@.len() && (#[trigger] seen@[w])@ == key@;
                    assert(picked_sigs(prefix)[w] == sig_of(prefix[picked_list(prefix)[w]]));
                    let jx = picked_list(prefix)[w];
                    assert(is_picked(prefix, jx));
                    assert(prefix[jx] == dups@[jx]);
                    assert(multi_dir(dups@[jx]));
                    assert(sig_of(dups@[jx]) == sig_of(dups@[i as int]));
                    assert(!is_picked(cur, i as int));
                    assert(picked_list(cur) == picked_list(prefix));
                    assert forall|t: int|
                        0 <= t < out@.len() implies *(#[trigger] out@[t]) == cur[picked_list(
                        cur,
                    )[t]] by {
                        assert(0 <= picked_list(prefix)[t] < prefix.len());
                        assert(cur[picked_list(prefix)[t]] == prefix[picked_list(prefix)[t]]);
                    }
                    assert(picked_sigs(cur) =~= picked_sigs(prefix)) by {
                        assert forall|t: int|
                            0 <= t < picked_list(cur).len() implies #[trigger] picked_sigs(
                            cur,
                        )[t] == picked_sigs(prefix)[t] by {
                            assert(0 <= picked_list(prefix)[t] < prefix.len());
                            assert(cur[picked_list(prefix)[t]] == prefix[picked_list(prefix)[t]]);
                        }
                    }
                }
            } else {
                proof {
                    // no earlier multi-directory group carries this signature:
                    // its first representative would have put it in `seen`
                    assert forall|j: int|
                        0 <= j < i implies !multi_dir(#[trigger] dups@[j]) || sig_of(dups@[j])
                        != sig_of(dups@[i as int]) by {
                        if multi_dir(dups@[j]) && sig_of(dups@[j]) == sig_of(dups@[i as int]) {
                            assert(prefix[j] == dups@[j]);
                            assert(is_picked(prefix, j) == is_picked(dups@, j)) by {
                                lemma_is_picked_prefix(dups@, i as int, j);
                            }
                            assert(multi_dir(prefix[j]));
                            lemma_first_pick(prefix, j);
                            let t = choose|t: int|
                                0 <= t <= j && #[trigger] is_picked(prefix, t) && sig_of(
                                    prefix[t],
                                ) == sig_of(prefix[j]);
                            lemma_picked_complete(prefix, t);
                            let w = choose|w: int|
                                0 <= w < picked_list(prefix).len() && #[trigger] picked_list(
                                    prefix,
                                )[w] == t;
                            assert(picked_sigs(prefix)[w] == sig_of(prefix[t]));
                            assert((seen@[w])@ == key@);
                        }
                    }
                    assert(is_picked(dups@, i as int));
                    assert(is_picked(cur, i as int));
                    assert(picked_list(cur) == picked_list(prefix).push(i as int));
                }
                let ghost old_out = out@;
                let ghost old_seen = seen@;
                out.push(d);
                seen.push(key);
                proof {
                    assert forall|t: int|
                        0 <= t < out@.len() implies *(#[trigger] out@[t]) == cur[picked_list(
                        cur,
                    )[t]] by {
                        if t < old_out.len() {
                            assert(out@[t] == old_out[t]);
                            assert(picked_list(cur)[t] == picked_list(prefix)[t]);
                            assert(0 <= picked_list(prefix)[t] < prefix.len());
                            assert(cur[picked_list(prefix)[t]] == prefix[picked_list(prefix)[t]]);
                        } else {
                            assert(picked_list(cur)[t] == i as int);
                        }
                    }
                    assert(views_of(seen@) =~= picked_sigs(cur)) by {
                        assert(seen@.len() == picked_list(cur).len());
                        assert forall|t: int|
                            0 <= t < seen@.len() implies #[trigger] views_of(seen@)[t]
                            == picked_sigs(cur)[t] by {
                            if t < old_seen.len() {
                                assert(seen@[t] == old_seen[t]);
                                assert(views_of(old_seen)[t] == picked_sigs(prefix)[t]);
                                assert(picked_list(cur)[t] == picked_list(prefix)[t]);
                                assert(0 <= picked_list(prefix)[t] < prefix.len());
                                assert(cur[picked_list(prefix)[t]] == prefix[picked_list(
                                    prefix,
                                )[t]]);
                            } else {
                                assert(seen@[t] == key);
                                assert(picked_list(cur)[t] == i as int);
                            }
                        }
                    }
                }
            }
        }
        i = i + 1;
    }
    proof {
        assert(dups@.take(i as int) =~= dups@);
    }
    out
}

/// The representatives carry pairwise distinct signatures.
proof fn lemma_picked_sigs_distinct(dups: Seq<DupFile>)
    ensures
        forall|t: int, u: int|
            0 <= t < u < picked_list(dups).len() ==> sig_of(
                dups[#[trigger] picked_list(dups)[t]],
            ) != sig_of(dups[#[trigger] picked_list(dups)[u]]),
{
    lemma_picked_props(dups);
    assert forall|t: int, u: int|
        0 <= t < u < picked_list(dups).len() implies sig_of(dups[#[trigger] picked_list(dups)[t]])
        != sig_of(dups[#[trigger] picked_list(dups)[u]]) by {
        let it = picked_list(dups)[t];
        let iu = picked_list(dups)[u];
        assert(is_picked(dups, it));
        assert(is_picked(dups, iu));
        assert(it < iu);
        assert(multi_dir(dups[it]));
    }
}

#[verifier::external_type_specification]
#[verifier::external_body]
#[verifier::reject_recursive_types(K)]
#[verifier::reject_recursive_types(V)]
#[verifier::reject_recursive_types(S)]
pub struct ExIndexMap<K, V, S>(indexmap::map::IndexMap<K, V, S>);

/// Relies on indexmap's IndexMap::new: an empty map.
#[verifier::external_body]
fn imap_empty() -> indexmap::map::IndexMap<String, DirBasedPruneRule> {
    indexmap::map::IndexMap::new()
}

/// An insertion-ordered map from directory signatures to prune rules,
/// carrying its entries as a model.
pub struct RuleMap {
    inner: indexmap::map::IndexMap<String, DirBasedPruneRule>,
    model: Ghost<Seq<(Seq<char>, DirBasedPruneRule)>>,
}

impl RuleMap {
    /// The entries, in insertion order.
    pub closed spec fn model(&self) -> Seq<(Seq<char>, DirBasedPruneRule)> {
        self.model@
    }

    /// An empty rule map.
    pub fn new() -> (r: RuleMap)
        ensures
            r.model() == Seq::<(Seq<char>, DirBasedPruneRule)>::empty(),
    {
        RuleMap { inner: imap_empty(), model: Ghost(Seq::empty()) }
    }

    /// Relies on indexmap's IndexMap::insert: a key not yet present is
    /// appended, keeping insertion order.
    #[verifier::external_body]
    fn insert_new(&mut self, key: String, rule: DirBasedPruneRule)
        requires
            forall|t: int|
                0 <= t < old(self).model().len() ==> (#[trigger] old(self).model()[t]).0 != key@,
        ensures
            final(self).model() == old(self).model().push((key@, rule)),
    {
        self.inner.insert(key, rule);
    }

    /// Relies on indexmap's IndexMap::iter: the entries, cloned, in
    /// insertion order.
    #[verifier::external_body]
    pub fn entries(&self) -> (r: Vec<(String, DirBasedPruneRule)>)
        ensures
            r@.len() == self.model().len(),
            forall|t: int|
                0 <= t < r@.len() ==> (#[trigger] r@[t]).0@ == self.model()[t].0 && r@[t].1
                    == self.model()[t].1,
    {
        self.inner.iter().map(|(k, v)| (k.clone(), v.clone())).collect()
    }
}

/// Consolidates duplicate groups into directory-signature rules: the
/// representatives (see `pick_dups_for_rules`) are keyed by signature
/// in first-seen order, each bound to its decision and its canonical
/// directory list. Keys come out pairwise distinct and every rule
/// spans at least two directories.
#[verifier::rlimit(30)]
pub fn collect_dup_path_rules(dups: &Vec<DupFile>, decisions: &Vec<KeepStrategy>) -> (r: RuleMap)
    requires
        decisions@.len() == picked_list(dups@).len(),
    ensures
        r.model().len() == picked_list(dups@).len(),
        forall|t: int|
            0 <= t < r.model().len() ==> {
                let ix = picked_list(dups@)[t];
                &&& (#[trigger] r.model()[t]).0 == sig_of(dups@[ix])
                &&& r.model()[t].1.spec_verdict() == decisions@[t]
                &&& r.model()[t].1.spec_paths() == dirs_of(dups@[ix])
                &&& r.model()[t].1.spec_paths().len() >= 2
            },
        forall|t: int, u: int|
            0 <= t < u < r.model().len() ==> (#[trigger] r.model()[t]).0 != (
            #[trigger] r.model()[u]).0,
{
    let cases = pick_dups_for_rules(dups);
    proof {
        lemma_picked_props(dups@);
        lemma_picked_sigs_distinct(dups@);
    }
    let mut rm = RuleMap::new();
    let mut t: usize = 0;
    while t < cases.len()
        invariant
            0 <= t <= cases@.len(),
            cases@.len() == picked_list(dups@).len(),
            decisions@.len() == picked_list(dups@).len(),
            forall|w: int|
                0 <= w < cases@.len() ==> *(#[trigger] cases@[w]) == dups@[picked_list(dups@)[w]],
            forall|w: int|
                0 <= w < picked_list(dups@).len() ==> 0 <= #[trigger] picked_list(dups@)[w]
                    < dups@.len() && is_picked(dups@, picked_list(dups@)[w]),
            forall|w: int, x: int|
                0 <= w < x < picked_list(dups@).len() ==> sig_of(
                    dups@[#[trigger] picked_list(dups@)[w]],
                ) != sig_of(dups@[#[trigger] picked_list(dups@)[x]]),
            rm.model().len() == t,
            forall|w: int|
                0 <= w < t ==> {
                    let ix = picked_list(dups@)[w];
                    &&& (#[trigger] rm.model()[w]).0 == sig_of(dups@[ix])
                    &&& rm.model()[w].1.spec_verdict() == decisions@[w]
                    &&& rm.model()[w].1.spec_paths() == dirs_of(dups@[ix])
                },
        decreases cases@.len() - t,
    {
        let ghost ix = picked_list(dups@)[t as int];
        let d: &DupFile = cases[t];
        proof {
            assert(*d == dups@[ix]);
            assert(multi_dir(dups@[ix]));
        }
        let pdirs = d.parent_dirs();
        let dirs = canonical_dirs(pdirs);
        proof {
            assert(views_of(dirs@) == dirs_of(dups@[ix]));
        }
        let key = join_with_commas(&dirs);
        proof {
            assert(key@ == sig_of(dups@[ix]));
            assert forall|w: int|
                0 <= w < rm.model().len() implies (#[trigger] rm.model()[w]).0 != key@ by {
                assert(rm.model()[w].0 == sig_of(dups@[picked_list(dups@)[w]]));
            }
        }
        let rule = DirBasedPruneRule { verdict: decisions[t], paths: dirs };
        let ghost before = rm.model();
        rm.insert_new(key, rule);
        proof {
            assert forall|w: int|
                0 <= w < t + 1 implies {
                    let ixw = picked_list(dups@)[w];
                    &&& (#[trigger] rm.model()[w]).0 == sig_of(dups@[ixw])
                    &&& rm.model()[w].1.spec_verdict() == decisions@[w]
                    &&& rm.model()[w].1.spec_paths() == dirs_of(dups@[ixw])
                } by {
                if w < t as int {
                    assert(rm.model()[w] == before[w]);
                }
            }
        }
        t = t + 1;
    }
    proof {
        assert forall|w: int, x: int|
            0 <= w < x < rm.model().len() implies (#[trigger] rm.model()[w]).0 != (
            #[trigger] rm.model()[x]).0 by {
            assert(rm.model()[w].0 == sig_of(dups@[picked_list(dups@)[w]]));
            assert(rm.model()[x].0 == sig_of(dups@[picked_list(dups@)[x]]));
        }
        assert forall|w: int| 0 <= w < rm.model().len() implies (#[trigger] rm.model()[w]).1
            .spec_paths().len() >= 2 by {
            assert(rm.model()[w].1.spec_paths() == dirs_of(dups@[picked_list(dups@)[w]]));
            assert(is_picked(dups@, picked_list(dups@)[w]));
            assert(multi_dir(dups@[picked_list(dups@)[w]]));
        }
    }
    rm
}

} // verus!
