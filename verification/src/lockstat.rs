//! Who held the state lock, and for how long.

use crate::text::{self, decimal_text};
use vstd::prelude::*;
use vstd::string::*;

verus! {

/// Figures of one place that takes the lock. Times are in nanoseconds.
#[derive(Clone, Copy, PartialEq, Eq, Structural, Debug)]
pub struct LockStat {
    pub count: u64,
    pub hold_ns: u64,
    pub max_hold_ns: u64,
    pub wait_ns: u64,
    /// The part of the holds during which a writer waited.
    pub blame_ns: u64,
}

pub open spec fn larger(a: u64, b: u64) -> u64 {
    if a > b {
        a
    } else {
        b
    }
}

pub open spec fn plus(a: u64, b: u64) -> u64 {
    vstd::wrapping::u64_specs::wrapping_add(a, b)
}

fn max_of(a: u64, b: u64) -> (r: u64)
    ensures
        r == larger(a, b),
{
    if a > b {
        a
    } else {
        b
    }
}

/// The part of a hold that a waiting writer can blame on it: from when both the
/// hold and the wait had begun. A wait that began at 0 is none.
pub fn blame(write: bool, now: u64, hold: u64, waiting_since: u64) -> (r: u64)
    ensures
        r == (if write || waiting_since == 0 {
            0
        } else {
            let acquired = if now > hold {
                now - hold
            } else {
                0
            };
            let from = if waiting_since > acquired {
                waiting_since as int
            } else {
                acquired
            };
            if now > from {
                now - from
            } else {
                0
            }
        }),
{
    if write || waiting_since == 0 {
        return 0;
    }
    let acquired: u64 = now.saturating_sub(hold);
    now.saturating_sub(max_of(waiting_since, acquired))
}

impl LockStat {
    pub fn new() -> (r: LockStat)
        ensures
            r == (LockStat { count: 0, hold_ns: 0, max_hold_ns: 0, wait_ns: 0, blame_ns: 0 }),
    {
        LockStat { count: 0, hold_ns: 0, max_hold_ns: 0, wait_ns: 0, blame_ns: 0 }
    }

    /// Count one hold.
    pub fn record(&mut self, hold: u64, wait: u64, blame: u64)
        ensures
            *final(self) == (LockStat {
                count: plus(old(self).count, 1),
                hold_ns: plus(old(self).hold_ns, hold),
                max_hold_ns: larger(old(self).max_hold_ns, hold),
                wait_ns: plus(old(self).wait_ns, wait),
                blame_ns: plus(old(self).blame_ns, blame),
            }),
    {
        self.count = self.count.wrapping_add(1);
        self.hold_ns = self.hold_ns.wrapping_add(hold);
        self.max_hold_ns = max_of(self.max_hold_ns, hold);
        self.wait_ns = self.wait_ns.wrapping_add(wait);
        self.blame_ns = self.blame_ns.wrapping_add(blame);
    }

    /// Add the figures of another thread.
    pub fn absorb(&mut self, other: &LockStat)
        ensures
            *final(self) == (LockStat {
                count: plus(old(self).count, other.count),
                hold_ns: plus(old(self).hold_ns, other.hold_ns),
                max_hold_ns: larger(old(self).max_hold_ns, other.max_hold_ns),
                wait_ns: plus(old(self).wait_ns, other.wait_ns),
                blame_ns: plus(old(self).blame_ns, other.blame_ns),
            }),
    {
        self.count = self.count.wrapping_add(other.count);
        self.hold_ns = self.hold_ns.wrapping_add(other.hold_ns);
        self.max_hold_ns = max_of(self.max_hold_ns, other.max_hold_ns);
        self.wait_ns = self.wait_ns.wrapping_add(other.wait_ns);
        self.blame_ns = self.blame_ns.wrapping_add(other.blame_ns);
    }
}

/// A place that takes the lock, with its figures.
pub struct LockSite {
    pub file: String,
    pub line: u32,
    pub write: bool,
    pub stat: LockStat,
}

/// Whether figures are listed before others: by blame, then by the time held.
pub open spec fn listed_before(a: LockStat, b: LockStat) -> bool {
    a.blame_ns > b.blame_ns || (a.blame_ns == b.blame_ns && a.hold_ns > b.hold_ns)
}

/// One line of the report.
pub open spec fn site_line(s: LockSite) -> Seq<char> {
    (if s.write {
        "W"@
    } else {
        "R"@
    }) + "\t"@ + text::decimal(s.stat.count as nat) + "\t"@ + text::decimal((s.stat.hold_ns / 1000) as nat) + "\t"@ + text::decimal(
        (s.stat.max_hold_ns / 1000) as nat,
    ) + "\t"@ + text::decimal((s.stat.wait_ns / 1000) as nat) + "\t"@ + text::decimal((s.stat.blame_ns / 1000) as nat) + "\t"@
        + s.file@ + ":"@ + text::decimal(s.line as nat) + "\n"@
}

/// The places, each put before those that it is listed before.
pub open spec fn site_placed(s: Seq<LockSite>, x: LockSite) -> Seq<LockSite>
    decreases s.len(),
{
    if s.len() == 0 {
        seq![x]
    } else if listed_before(x.stat, s.last().stat) {
        site_placed(s.drop_last(), x).push(s.last())
    } else {
        s.push(x)
    }
}

pub open spec fn sites_ordered(s: Seq<LockSite>, n: int) -> Seq<LockSite>
    decreases n,
{
    if n <= 0 {
        Seq::empty()
    } else {
        site_placed(sites_ordered(s, n - 1), s[n - 1])
    }
}

/// The lines of the first places.
pub open spec fn site_lines(s: Seq<LockSite>, n: int) -> Seq<char>
    decreases n,
{
    if n <= 0 {
        "kind\tcount\ttotal_hold_us\tmax_hold_us\ttotal_wait_us\tblame_us\tsite\n"@
    } else {
        site_lines(s, n - 1) + site_line(s[n - 1])
    }
}

fn is_listed_before(a: &LockStat, b: &LockStat) -> (r: bool)
    ensures
        r == listed_before(*a, *b),
{
    a.blame_ns > b.blame_ns || (a.blame_ns == b.blame_ns && a.hold_ns > b.hold_ns)
}

fn line_of(s: &LockSite) -> (r: String)
    ensures
        r@ == site_line(*s),
{
    let kind = if s.write {
        "W"
    } else {
        "R"
    };
    kind.to_owned().concat("\t").concat(decimal_text(s.stat.count).as_str()).concat("\t").concat(
        decimal_text(s.stat.hold_ns / 1000).as_str(),
    ).concat("\t").concat(decimal_text(s.stat.max_hold_ns / 1000).as_str()).concat("\t").concat(
        decimal_text(s.stat.wait_ns / 1000).as_str(),
    ).concat("\t").concat(decimal_text(s.stat.blame_ns / 1000).as_str()).concat("\t").concat(s.file.as_str()).concat(":").concat(
        decimal_text(s.line as u64).as_str(),
    ).concat("\n")
}

fn place_site(out: &mut Vec<LockSite>, x: LockSite)
    ensures
        final(out)@ == site_placed(old(out)@, x),
{
    let ghost s = out@;
    let mut at: usize = out.len();
    let mut going: bool = true;
    assert(s.subrange(0, s.len() as int) =~= s);
    assert(site_placed(s, x) =~= site_placed(s.subrange(0, at as int), x) + s.subrange(at as int, s.len() as int));
    while going && at > 0
        invariant
            at <= out@.len() == s.len(),
            out@ == s,
            going ==> site_placed(s, x) == site_placed(s.subrange(0, at as int), x) + s.subrange(at as int, s.len() as int),
            !going ==> site_placed(s, x) == s.subrange(0, at as int).push(x) + s.subrange(at as int, s.len() as int),
        decreases at, (if going { 1int } else { 0int }),
    {
        let ghost front = s.subrange(0, at as int);
        proof {
            assert(front.drop_last() =~= s.subrange(0, at - 1));
            assert(front.last() == s[at - 1]);
        }
        if is_listed_before(&x.stat, &out[at - 1].stat) {
            assert(site_placed(s.subrange(0, at - 1), x).push(front.last()) + s.subrange(at as int, s.len() as int) =~= site_placed(
                s.subrange(0, at - 1),
                x,
            ) + s.subrange(at - 1, s.len() as int));
            at = at - 1;
        } else {
            going = false;
        }
    }
    assert(site_placed(s, x) == s.subrange(0, at as int).push(x) + s.subrange(at as int, s.len() as int)) by {
        if going {
            assert(s.subrange(0, 0) =~= Seq::<LockSite>::empty());
            assert(seq![x] =~= Seq::<LockSite>::empty().push(x));
        }
    }
    out.insert(at, x);
    assert(out@ =~= s.subrange(0, at as int).push(x) + s.subrange(at as int, s.len() as int));
}

/// Report the places that took the lock: the most blamed first.
pub fn report(sites: Vec<LockSite>) -> (r: String)
    ensures
        r@ == site_lines(sites_ordered(sites@, sites@.len() as int), sites_ordered(sites@, sites@.len() as int).len() as int),
{
    let ghost all = sites@;
    let total: usize = sites.len();
    let mut left = sites;
    let mut ordered: Vec<LockSite> = Vec::new();
    let mut n: usize = 0;
    assert(left@ =~= all.subrange(0, all.len() as int));
    while left.len() > 0
        invariant
            total == all.len(),
            n + left@.len() == all.len(),
            left@ =~= all.subrange(n as int, all.len() as int),
            ordered@ == sites_ordered(all, n as int),
        decreases left@.len(),
    {
        let x = left.remove(0);
        assert(x == all[n as int]);
        place_site(&mut ordered, x);
        n = n + 1;
    }
    let mut out = "kind\tcount\ttotal_hold_us\tmax_hold_us\ttotal_wait_us\tblame_us\tsite\n".to_owned();
    let mut i: usize = 0;
    while i < ordered.len()
        invariant
            i <= ordered@.len(),
            out@ == site_lines(ordered@, i as int),
        decreases ordered@.len() - i,
    {
        let line = line_of(&ordered[i]);
        out = out.concat(line.as_str());
        i = i + 1;
    }
    out
}

/// A place is put behind what is worse or as bad, and before what is less bad.
proof fn lemma_site_placed(s: Seq<LockSite>, x: LockSite)
    requires
        worst_first(s),
    ensures
        worst_first(site_placed(s, x)),
        site_placed(s, x).to_multiset() == s.to_multiset().insert(x),
        forall|i: int| 0 <= i < site_placed(s, x).len() ==> s.contains(#[trigger] site_placed(s, x)[i]) || site_placed(s, x)[i] == x,
    decreases s.len(),
{
    broadcast use vstd::seq_lib::group_to_multiset_ensures;

    let out = site_placed(s, x);
    if s.len() == 0 {
        assert(out =~= s.push(x));
    } else if listed_before(x.stat, s.last().stat) {
        let t = s.drop_last();
        assert forall|i: int, j: int| 0 <= i < j < t.len() implies at_least_as_bad((#[trigger] t[i]).stat, (#[trigger] t[j]).stat) by {
            assert(t[i] == s[i] && t[j] == s[j]);
        }
        lemma_site_placed(t, x);
        let head = site_placed(t, x);
        assert(out == head.push(s.last()));
        assert(s =~= t.push(s.last()));
        assert(s.to_multiset().insert(x) =~= t.to_multiset().insert(x).insert(s.last()));
        assert forall|i: int, j: int| 0 <= i < j < out.len() implies at_least_as_bad((#[trigger] out[i]).stat, (#[trigger] out[j]).stat) by {
            if j < head.len() {
                assert(head[i] == out[i] && head[j] == out[j]);
            } else {
                assert(out[i] == head[i]);
                if head[i] != x {
                    let k = t.index_of(head[i]);
                    assert(s[k] == t[k]);
                    assert(at_least_as_bad(s[k].stat, s[s.len() - 1].stat));
                }
            }
        }
        assert forall|i: int| 0 <= i < out.len() implies s.contains(#[trigger] out[i]) || out[i] == x by {
            if i < head.len() {
                assert(out[i] == head[i]);
                if head[i] != x {
                    let k = t.index_of(head[i]);
                    assert(s[k] == head[i]);
                }
            } else {
                assert(out[i] == s[s.len() - 1]);
            }
        }
    } else {
        assert forall|i: int, j: int| 0 <= i < j < out.len() implies at_least_as_bad((#[trigger] out[i]).stat, (#[trigger] out[j]).stat) by {
            assert(out[i] == s[i]);
            if j < s.len() {
                assert(out[j] == s[j]);
            } else if i < s.len() - 1 {
                assert(at_least_as_bad(s[i].stat, s[s.len() - 1].stat));
            }
        }
        assert forall|i: int| 0 <= i < out.len() implies s.contains(#[trigger] out[i]) || out[i] == x by {
            if i < s.len() {
                assert(out[i] == s[i]);
            }
        }
    }
}

/// Waiting that was caused counts first, and holding where that is the same.
pub open spec fn at_least_as_bad(a: LockStat, b: LockStat) -> bool {
    a.blame_ns > b.blame_ns || (a.blame_ns == b.blame_ns && a.hold_ns >= b.hold_ns)
}

pub open spec fn worst_first(s: Seq<LockSite>) -> bool {
    forall|i: int, j: int| 0 <= i < j < s.len() ==> at_least_as_bad((#[trigger] s[i]).stat, (#[trigger] s[j]).stat)
}

/// The report has every place once, the worst first: those that others waited for
/// longest, and of two that are alike in that the one that was held longer.
pub proof fn lemma_report_order(s: Seq<LockSite>, n: int)
    requires
        0 <= n <= s.len(),
    ensures
        worst_first(sites_ordered(s, n)),
        sites_ordered(s, n).to_multiset() == s.subrange(0, n).to_multiset(),
    decreases n,
{
    broadcast use vstd::seq_lib::group_to_multiset_ensures;

    if n > 0 {
        lemma_report_order(s, n - 1);
        lemma_site_placed(sites_ordered(s, n - 1), s[n - 1]);
        assert(s.subrange(0, n) =~= s.subrange(0, n - 1).push(s[n - 1]));
    } else {
        assert(s.subrange(0, n) =~= Seq::empty());
    }
}

} // verus!
