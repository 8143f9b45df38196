//! Which families accept a rule tail.
//!
//! A tail is offered to each family's binary in a scratch chain. Only an option
//! belonging to the other family is rejected, so this catches exactly what the
//! shell's try-both caught, at one probe per distinct tail rather than per rule.
//! Running the binaries is the caller's; this module decides when to ask and
//! remembers the answers.

use vstd::prelude::*;

use crate::sets::Family;

verus! {

/// The binary that manages a family's rules.
pub open spec fn binary_name(family: Family) -> Seq<char> {
    match family {
        Family::V4 => "iptables"@,
        Family::V6 => "ip6tables"@,
    }
}

/// The binary that manages a family's rules.
pub fn binary(family: Family) -> (b: &'static str)
    ensures
        b@ == binary_name(family),
{
    match family {
        Family::V4 => "iptables",
        Family::V6 => "ip6tables",
    }
}

/// How setting up the scratch chain went in one family.
#[derive(Debug, PartialEq, Eq, Clone, Copy, Structural)]
pub enum ChainSetup {
    /// The chain was created.
    Created,
    /// Creating it failed, as it does for a chain left by an earlier run;
    /// flushing it then succeeded or not.
    Existing { flushed: bool },
    /// The binary could not be run.
    NotRun,
}

/// The family cannot be probed: its binary did not run, or a leftover chain
/// could not be flushed.
pub open spec fn setup_failed(s: ChainSetup) -> bool {
    match s {
        ChainSetup::Created => false,
        ChainSetup::Existing { flushed } => !flushed,
        ChainSetup::NotRun => true,
    }
}

/// Probing is unavailable, and every tail goes to both families, when the
/// scratch chain could not be set up in some family.
pub fn degraded_by(setups: &[ChainSetup]) -> (d: bool)
    ensures
        d == exists|i: int| 0 <= i < setups@.len() && #[trigger] setup_failed(setups@[i]),
{
    let mut i: usize = 0;
    while i < setups.len()
        invariant
            i <= setups@.len(),
            forall|j: int| 0 <= j < i ==> !#[trigger] setup_failed(setups@[j]),
        decreases setups@.len() - i,
    {
        let failed = match setups[i] {
            ChainSetup::Created => false,
            ChainSetup::Existing { flushed } => !flushed,
            ChainSetup::NotRun => true,
        };
        if failed {
            assert(setup_failed(setups@[i as int]));
            return true;
        }
        i = i + 1;
    }
    false
}

/// Remembered answers, one per distinct tail, and whether probing is
/// available at all.
pub struct Prober {
    /// Keyed by the tail, so a tail repeated across rules is probed once.
    cache: Vec<(Vec<String>, Vec<Family>)>,
    /// Set when the scratch chain could not be created; every tail is then
    /// offered to both families, as the shell path does.
    degraded: bool,
}

pub struct ProberView {
    pub cache: Seq<(Seq<Seq<char>>, Seq<Family>)>,
    pub degraded: bool,
}

impl View for Prober {
    type V = ProberView;

    closed spec fn view(&self) -> ProberView {
        ProberView { cache: self.cache.deep_view(), degraded: self.degraded }
    }
}

/// The answer remembered for `tail`, if any.
pub open spec fn remembered(cache: Seq<(Seq<Seq<char>>, Seq<Family>)>, tail: Seq<Seq<char>>) -> Option<Seq<Family>>
    decreases cache.len(),
{
    if cache.len() == 0 {
        None
    } else if cache.last().0 == tail {
        Some(cache.last().1)
    } else {
        remembered(cache.drop_last(), tail)
    }
}

/// No tail is remembered twice.
pub open spec fn distinct_tails(cache: Seq<(Seq<Seq<char>>, Seq<Family>)>) -> bool {
    forall|i: int, j: int| 0 <= i < j < cache.len() ==> #[trigger] cache[i].0 != #[trigger] cache[j].0
}

/// The families that accepted, v4 first.
pub open spec fn accepted(v4: bool, v6: bool) -> Seq<Family> {
    (if v4 { seq![Family::V4] } else { Seq::empty() }) + (if v6 { seq![Family::V6] } else { Seq::empty() })
}

impl Prober {
    /// A prober with nothing remembered; `degraded` when the scratch chain
    /// could not be set up in some family.
    pub fn new(degraded: bool) -> (p: Prober)
        ensures
            p@.cache == Seq::<(Seq<Seq<char>>, Seq<Family>)>::empty(),
            p@.degraded == degraded,
            p.wf(),
    {
        let p = Prober { cache: Vec::new(), degraded };
        assert(p@.cache =~= Seq::<(Seq<Seq<char>>, Seq<Family>)>::empty());
        p
    }

    /// Every tail is remembered once.
    pub closed spec fn wf(&self) -> bool {
        distinct_tails(self@.cache)
    }

    /// Position of `tail` among the remembered tails.
    fn position(&self, tail: &[String]) -> (r: Option<usize>)
        requires
            self.wf(),
        ensures
            match r {
                Some(i) => i < self@.cache.len() && remembered(self@.cache, tail.deep_view()) == Some(
                    self@.cache[i as int].1,
                ),
                None => remembered(self@.cache, tail.deep_view()) is None,
            },
    {
        let ghost c = self@.cache;
        let ghost t = tail.deep_view();
        let mut i: usize = 0;
        while i < self.cache.len()
            invariant
                i <= c.len(),
                c == self@.cache,
                t == tail.deep_view(),
                distinct_tails(c),
                forall|j: int| 0 <= j < i ==> #[trigger] c[j].0 != t,
            decreases c.len() - i,
        {
            assert(c[i as int] == self.cache@[i as int].deep_view());
            if same_tail(&self.cache[i].0, tail) {
                proof {
                    lemma_remembered_at(c, t, i as int);
                }
                return Some(i);
            }
            i = i + 1;
        }
        proof {
            lemma_remembered_none(c, t);
        }
        None
    }

    /// Families whose binary accepts this tail. `accepts` offers a tail to a
    /// family's binary; it is asked only for a tail not seen before, and not
    /// at all when probing is unavailable.
    pub fn families_for<F: Fn(Family, &[String]) -> bool>(&mut self, tail: &[String], accepts: &F) -> (fams: Vec<Family>)
        requires
            old(self).wf(),
            forall|f: Family, a: &[String]| #[trigger] call_requires(*accepts, (f, a)),
        ensures
            final(self).wf(),
            final(self)@.degraded == old(self)@.degraded,
            old(self)@.degraded ==> fams@ == seq![Family::V4, Family::V6] && final(self)@ == old(self)@,
            !old(self)@.degraded && remembered(old(self)@.cache, tail.deep_view()) is Some ==> {
                &&& fams@ == remembered(old(self)@.cache, tail.deep_view())->0
                &&& final(self)@ == old(self)@
            },
            !old(self)@.degraded && remembered(old(self)@.cache, tail.deep_view()) is None ==> {
                &&& exists|v4: bool, v6: bool|
                    {
                        &&& call_ensures(*accepts, (Family::V4, tail), v4)
                        &&& call_ensures(*accepts, (Family::V6, tail), v6)
                        &&& #[trigger] accepted(v4, v6) == fams@
                    }
                &&& final(self)@.cache == old(self)@.cache.push((tail.deep_view(), fams@))
            },
    {
        if self.degraded {
            let v = vec![Family::V4, Family::V6];
            assert(v@ =~= seq![Family::V4, Family::V6]);
            return v;
        }
        match self.position(tail) {
            Some(i) => {
                let hit = copy_families(&self.cache[i].1);
                assert(self@.cache[i as int].1 =~= self.cache@[i as int].1@);
                return hit;
            },
            None => {},
        }
        let v4 = accepts(Family::V4, tail);
        let v6 = accepts(Family::V6, tail);
        self.remember(tail, v4, v6)
    }

    /// Takes what each family's binary answered for `tail` and gives the
    /// families that accepted it, v4 first, remembering the answer; a tail
    /// already remembered keeps its first answer.
    pub fn remember(&mut self, tail: &[String], v4: bool, v6: bool) -> (fams: Vec<Family>)
        requires
            old(self).wf(),
        ensures
            final(self).wf(),
            final(self)@.degraded == old(self)@.degraded,
            remembered(old(self)@.cache, tail.deep_view()) is Some ==> {
                &&& fams@ == remembered(old(self)@.cache, tail.deep_view())->0
                &&& final(self)@ == old(self)@
            },
            remembered(old(self)@.cache, tail.deep_view()) is None ==> {
                &&& fams@ == accepted(v4, v6)
                &&& final(self)@.cache == old(self)@.cache.push((tail.deep_view(), fams@))
            },
    {
        match self.position(tail) {
            Some(i) => {
                let hit = copy_families(&self.cache[i].1);
                assert(self@.cache[i as int].1 =~= self.cache@[i as int].1@);
                return hit;
            },
            None => {},
        }
        let mut fams: Vec<Family> = Vec::new();
        if v4 {
            fams.push(Family::V4);
        }
        if v6 {
            fams.push(Family::V6);
        }
        assert(fams@ =~= accepted(v4, v6));
        let ghost c = self@.cache;
        let key = copy_tail(tail);
        let answer = copy_families(&fams);
        assert(answer.deep_view() =~= fams@);
        self.cache.push((key, answer));
        assert(self@.cache =~= c.push((tail.deep_view(), fams@)));
        proof {
            lemma_remembered_none(c, tail.deep_view());
            assert forall|i: int, j: int| 0 <= i < j < self@.cache.len() implies #[trigger] self@.cache[i].0
                != #[trigger] self@.cache[j].0 by {
                if j == c.len() {
                    assert(self@.cache[i] == c[i]);
                    lemma_remembered_some(c, c[i].0, i);
                } else {
                    assert(self@.cache[i] == c[i]);
                    assert(self@.cache[j] == c[j]);
                }
            }
        }
        fams
    }
}

/// A tail probed once is answered from memory the next time: what one call
/// of `families_for` remembered, a later call with the same tail returns.
pub proof fn lemma_probe_remembered(
    cache: Seq<(Seq<Seq<char>>, Seq<Family>)>,
    tail: Seq<Seq<char>>,
    fams: Seq<Family>,
)
    ensures
        remembered(cache.push((tail, fams)), tail) == Some(fams),
{
    assert(cache.push((tail, fams)).last() == (tail, fams));
}

proof fn lemma_remembered_at(c: Seq<(Seq<Seq<char>>, Seq<Family>)>, t: Seq<Seq<char>>, i: int)
    requires
        distinct_tails(c),
        0 <= i < c.len(),
        c[i].0 == t,
    ensures
        remembered(c, t) == Some(c[i].1),
    decreases c.len(),
{
    if i < c.len() - 1 {
        assert(c.last() == c[c.len() - 1]);
        assert(c[i].0 != c[c.len() - 1].0);
        let d = c.drop_last();
        assert(d[i] == c[i]);
        assert forall|a: int, b: int| 0 <= a < b < d.len() implies #[trigger] d[a].0 != #[trigger] d[b].0 by {
            assert(d[a] == c[a]);
            assert(d[b] == c[b]);
        }
        lemma_remembered_at(d, t, i);
    }
}

proof fn lemma_remembered_none(c: Seq<(Seq<Seq<char>>, Seq<Family>)>, t: Seq<Seq<char>>)
    ensures
        remembered(c, t) is None <==> forall|j: int| 0 <= j < c.len() ==> #[trigger] c[j].0 != t,
    decreases c.len(),
{
    if c.len() > 0 {
        let d = c.drop_last();
        lemma_remembered_none(d, t);
        if remembered(c, t) is None {
            assert forall|j: int| 0 <= j < c.len() implies #[trigger] c[j].0 != t by {
                if j < c.len() - 1 {
                    assert(d[j] == c[j]);
                }
            }
        } else if c.last().0 != t {
            let k = choose|k: int| 0 <= k < d.len() && #[trigger] d[k].0 == t;
            assert(c[k] == d[k]);
        }
    }
}

proof fn lemma_remembered_some(c: Seq<(Seq<Seq<char>>, Seq<Family>)>, t: Seq<Seq<char>>, i: int)
    requires
        0 <= i < c.len(),
        c[i].0 == t,
    ensures
        remembered(c, t) is Some,
{
    lemma_remembered_none(c, t);
}

fn same_tail(a: &Vec<String>, b: &[String]) -> (r: bool)
    ensures
        r == (a.deep_view() == b.deep_view()),
{
    if a.len() != b.len() {
        assert(a.deep_view().len() != b.deep_view().len());
        return false;
    }
    let mut i: usize = 0;
    while i < a.len()
        invariant
            i <= a@.len(),
            a@.len() == b@.len(),
            forall|j: int| 0 <= j < i ==> a@[j]@ == b@[j]@,
        decreases a@.len() - i,
    {
        if a[i] != b[i] {
            assert(a.deep_view()[i as int] != b.deep_view()[i as int]);
            return false;
        }
        i = i + 1;
    }
    assert(a.deep_view() =~= b.deep_view());
    true
}

fn copy_tail(t: &[String]) -> (v: Vec<String>)
    ensures
        v.deep_view() == t.deep_view(),
{
    let mut v: Vec<String> = Vec::new();
    let mut i: usize = 0;
    while i < t.len()
        invariant
            i <= t@.len(),
            v.deep_view() == t.deep_view().take(i as int),
        decreases t@.len() - i,
    {
        let s = t[i].clone();
        let ghost before = v.deep_view();
        v.push(s);
        assert(v.deep_view() =~= before.push(s@));
        assert(t.deep_view().take(i + 1) =~= t.deep_view().take(i as int).push(t@[i as int]@));
        i = i + 1;
    }
    assert(t.deep_view().take(i as int) =~= t.deep_view());
    v
}

fn copy_families(f: &Vec<Family>) -> (v: Vec<Family>)
    ensures
        v@ == f@,
{
    let mut v: Vec<Family> = Vec::new();
    let mut i: usize = 0;
    while i < f.len()
        invariant
            i <= f@.len(),
            v@ == f@.take(i as int),
        decreases f@.len() - i,
    {
        v.push(f[i]);
        i = i + 1;
        assert(v@ =~= f@.take(i as int));
    }
    assert(f@.take(i as int) =~= f@);
    v
}

} // verus!
