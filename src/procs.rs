use vstd::prelude::*;
use crate::text::{line_len, lines};

verus! {

/// Whether `b` is an ASCII decimal digit.
pub open spec fn is_digit(b: u8) -> bool {
    48 <= b && b <= 57
}

/// The value of a string of decimal digits.
pub open spec fn decimal_value(digits: Seq<u8>) -> nat
    decreases digits.len(),
{
    if digits.len() == 0 {
        0
    } else {
        decimal_value(digits.drop_last()) * 10 + (digits.last() - 48) as nat
    }
}

/// `s` without one leading `+`, if it has one.
pub open spec fn unsigned_digits(s: Seq<u8>) -> Seq<u8> {
    if s.len() > 0 && s[0] == 43 {
        s.drop_first()
    } else {
        s
    }
}

/// Whether every byte of `d` is a decimal digit.
pub open spec fn all_digits(d: Seq<u8>) -> bool {
    forall|i: int| 0 <= i < d.len() ==> is_digit(#[trigger] d[i])
}

/// The process id that `s` spells: an optional `+`, then one or more decimal
/// digits whose value fits in a `usize`.
pub open spec fn pid_of(s: Seq<u8>) -> Option<usize> {
    let d = unsigned_digits(s);
    if d.len() > 0 && all_digits(d) && decimal_value(d) <= usize::MAX {
        Some(decimal_value(d) as usize)
    } else {
        None
    }
}

/// The process ids that the lines `ls` spell, in order; a line that spells
/// none is passed over.
pub open spec fn pids_of(ls: Seq<Seq<u8>>) -> Seq<usize>
    decreases ls.len(),
{
    if ls.len() == 0 {
        Seq::empty()
    } else {
        match pid_of(ls.last()) {
            Some(p) => pids_of(ls.drop_last()).push(p),
            None => pids_of(ls.drop_last()),
        }
    }
}

/// Reads a process id: an optional `+` and decimal digits, nothing else.
pub fn parse_pid(s: &[u8]) -> (r: Option<usize>)
    ensures
        r == pid_of(s@),
{
    let start: usize = if s.len() > 0 && s[0] == 43 {
        1
    } else {
        0
    };
    let ghost d = unsigned_digits(s@);
    assert(d =~= s@.skip(start as int));
    if start >= s.len() {
        return None;
    }
    let mut value: usize = 0;
    let mut i: usize = start;
    while i < s.len()
        invariant
            start <= i <= s.len(),
            d =~= s@.skip(start as int),
            d == unsigned_digits(s@),
            forall|k: int| start <= k < i ==> is_digit(#[trigger] s@[k]),
            value == decimal_value(s@.subrange(start as int, i as int)),
        decreases s.len() - i,
    {
        let b = s[i];
        if b < 48 || b > 57 {
            assert(d[i - start] == s@[i as int]);
            assert(!is_digit(d[i - start]));
            assert(!all_digits(d));
            return None;
        }
        proof {
            let next = s@.subrange(start as int, i as int + 1);
            assert(next.drop_last() =~= s@.subrange(start as int, i as int));
        }
        let digit = (b - 48) as usize;
        if value > (usize::MAX - digit) / 10 {
            proof {
                let next = s@.subrange(start as int, i as int + 1);
                assert(decimal_value(next) > usize::MAX) by (nonlinear_arith)
                    requires
                        decimal_value(next) == value * 10 + digit,
                        value > (usize::MAX - digit) / 10,
                        digit <= 9,
                {
                }
                assert(d.subrange(0, i + 1 - start) =~= next);
                if all_digits(d) {
                    lemma_decimal_value_grows(d, i + 1 - start);
                }
            }
            return None;
        }
        value = value * 10 + digit;
        i = i + 1;
    }
    assert(d =~= s@.subrange(start as int, s.len() as int));
    assert(all_digits(d)) by {
        assert forall|k: int| 0 <= k < d.len() implies is_digit(#[trigger] d[k]) by {
            assert(d[k] == s@[start + k]);
        }
    }
    Some(value)
}

/// A prefix of a digit string never has a larger value than the string.
proof fn lemma_decimal_value_grows(s: Seq<u8>, k: int)
    requires
        0 <= k <= s.len(),
        all_digits(s),
    ensures
        decimal_value(s.subrange(0, k)) <= decimal_value(s),
    decreases s.len() - k,
{
    if k < s.len() {
        lemma_decimal_value_grows(s, k + 1);
        let t = s.subrange(0, k + 1);
        assert(t.drop_last() =~= s.subrange(0, k));
        assert(decimal_value(t) >= decimal_value(s.subrange(0, k)));
    } else {
        assert(s.subrange(0, k) =~= s);
    }
}

/// The process ids listed one per line in `text`, in order; lines that are
/// not a process id are passed over.
pub fn parse_child_pids(text: &[u8]) -> (r: Vec<usize>)
    ensures
        r@ == pids_of(lines(text@)),
{
    let n = text.len();
    let mut r: Vec<usize> = Vec::new();
    let mut i: usize = 0;
    let ghost mut done: Seq<Seq<u8>> = Seq::empty();
    assert(text@.skip(0) =~= text@);
    while i < n
        invariant
            n == text@.len(),
            i <= n,
            lines(text@) == done + lines(text@.skip(i as int)),
            r@ == pids_of(done),
        decreases n - i,
    {
        let start = i;
        while i < n && text[i] != 10
            invariant
                n == text@.len(),
                start < n,
                start <= i <= n,
                line_len(text@.skip(start as int)) == (i - start) + line_len(
                    text@.skip(i as int),
                ),
            decreases n - i,
        {
            assert(text@.skip(i as int).drop_first() =~= text@.skip(i as int + 1));
            i = i + 1;
        }
        let line = &text[start..i];
        proof {
            let s = text@.skip(start as int);
            assert(line_len(text@.skip(i as int)) == 0);
            assert(s.take(i - start) =~= line@);
            let ls = lines(s);
            if i < n {
                assert(s.skip(i - start + 1) =~= text@.skip(i as int + 1));
                assert(ls == seq![line@] + lines(text@.skip(i as int + 1)));
                assert(done + ls =~= done.push(line@) + lines(text@.skip(i as int + 1)));
            } else {
                assert(s =~= line@);
                assert(text@.skip(i as int) =~= Seq::<u8>::empty());
                assert(ls == seq![line@]);
                assert(done + ls =~= done.push(line@) + lines(text@.skip(i as int)));
            }
            assert(done.push(line@).drop_last() =~= done);
        }
        match parse_pid(line) {
            Some(p) => {
                r.push(p);
            },
            None => {},
        }
        proof {
            done = done.push(line@);
        }
        if i < n {
            i = i + 1;
        }
    }
    proof {
        assert(text@.skip(n as int) =~= Seq::<u8>::empty());
        assert(lines(text@) =~= done);
    }
    r
}

/// `base` followed by those of `more` that are not in it yet, each once, in
/// the order of their first occurrence.
pub open spec fn extend_unique(base: Seq<usize>, more: Seq<usize>) -> Seq<usize>
    decreases more.len(),
{
    if more.len() == 0 {
        base
    } else {
        let b = extend_unique(base, more.drop_last());
        if b.contains(more.last()) {
            b
        } else {
            b.push(more.last())
        }
    }
}

/// Expansion only grows the set: every id found before stays, at its place,
/// and every child is found afterwards.
pub proof fn lemma_extend_unique_grows(base: Seq<usize>, more: Seq<usize>)
    ensures
        base.len() <= extend_unique(base, more).len(),
        extend_unique(base, more).subrange(0, base.len() as int) == base,
        forall|p: usize| more.contains(p) ==> extend_unique(base, more).contains(p),
    decreases more.len(),
{
    if more.len() > 0 {
        let init = more.drop_last();
        lemma_extend_unique_grows(base, init);
        let b = extend_unique(base, init);
        if !b.contains(more.last()) {
            assert(b.push(more.last()).subrange(0, base.len() as int) =~= b.subrange(0, base.len() as int));
            assert(b.push(more.last())[b.len() as int] == more.last());
        }
        assert forall|p: usize| more.contains(p) implies extend_unique(base, more).contains(p) by {
            let i = choose|i: int| 0 <= i < more.len() && more[i] == p;
            if i < more.len() - 1 {
                assert(init[i] == p);
                assert(init.contains(p));
                assert(b.contains(p));
                let e = extend_unique(base, more);
                if !b.contains(more.last()) {
                    let j = choose|j: int| 0 <= j < b.len() && b[j] == p;
                    assert(e[j] == p);
                }
            } else if !b.contains(more.last()) {
                let e = extend_unique(base, more);
                assert(e[b.len() as int] == p);
            }
        }
    }
}

/// The set of process ids under expansion to their descendants: the ids
/// found so far, each once, in the order found, and how many of them have had
/// their children listed. The set only grows.
pub struct PidFrontier {
    pids: Vec<usize>,
    next: usize,
}

impl PidFrontier {
    pub closed spec fn wf(&self) -> bool {
        &&& self.next <= self.pids@.len()
        &&& self.pids@.no_duplicates()
    }

    /// The ids found so far.
    pub closed spec fn found(&self) -> Seq<usize> {
        self.pids@
    }

    /// How many of the ids found have had their children listed.
    pub closed spec fn expanded(&self) -> nat {
        self.next as nat
    }

    /// Starts from the seed ids, none of them expanded yet.
    pub fn new(seeds: &Vec<usize>) -> (r: Self)
        ensures
            r.wf(),
            r.found() == extend_unique(Seq::empty(), seeds@),
            r.expanded() == 0,
    {
        let mut r = PidFrontier { pids: Vec::new(), next: 0 };
        r.add_all(seeds);
        r
    }

    /// The next id whose children are still to be listed, if any.
    pub fn next_pid(&self) -> (r: Option<usize>)
        requires
            self.wf(),
        ensures
            self.expanded() < self.found().len() ==> r == Some(self.found()[self.expanded() as int]),
            self.expanded() >= self.found().len() ==> r is None,
    {
        if self.next < self.pids.len() {
            Some(self.pids[self.next])
        } else {
            None
        }
    }

    /// Records the children listed for the id that `next_pid` gave: those not
    /// found before join the set, and that id counts as expanded.
    pub fn add_children(&mut self, children: &Vec<usize>)
        requires
            old(self).wf(),
            old(self).expanded() < old(self).found().len(),
        ensures
            final(self).wf(),
            final(self).found() == extend_unique(old(self).found(), children@),
            final(self).expanded() == old(self).expanded() + 1,
    {
        self.add_all(children);
        if self.next < self.pids.len() {
            self.next = self.next + 1;
        }
    }

    /// The ids found so far, in the order found.
    pub fn pids(&self) -> (r: &Vec<usize>)
        ensures
            r@ == self.found(),
    {
        &self.pids
    }

    fn add_all(&mut self, more: &Vec<usize>)
        requires
            old(self).wf(),
        ensures
            final(self).wf(),
            final(self).found() == extend_unique(old(self).found(), more@),
            final(self).next == old(self).next,
            final(self).pids@.len() >= old(self).pids@.len(),
    {
        let ghost base = self.pids@;
        let mut i: usize = 0;
        while i < more.len()
            invariant
                i <= more.len(),
                self.wf(),
                self.next == old(self).next,
                base == old(self).pids@,
                self.pids@.len() >= base.len(),
                self.pids@ == extend_unique(base, more@.subrange(0, i as int)),
            decreases more.len() - i,
        {
            let p = more[i];
            proof {
                let next = more@.subrange(0, i as int + 1);
                assert(next.drop_last() =~= more@.subrange(0, i as int));
            }
            let mut present = false;
            let mut j: usize = 0;
            while j < self.pids.len()
                invariant
                    j <= self.pids@.len(),
                    present == self.pids@.subrange(0, j as int).contains(p),
                decreases self.pids@.len() - j,
            {
                proof {
                    let s = self.pids@.subrange(0, j as int + 1);
                    assert(s =~= self.pids@.subrange(0, j as int).push(self.pids@[j as int]));
                    if s.contains(p) && !self.pids@.subrange(0, j as int).contains(p) {
                        let k = choose|k: int| 0 <= k < s.len() && s[k] == p;
                        if k < j {
                            assert(self.pids@.subrange(0, j as int)[k] == p);
                        }
                    }
                    if self.pids@.subrange(0, j as int).contains(p) {
                        let k = choose|k: int| 0 <= k < j && self.pids@.subrange(0, j as int)[k] == p;
                        assert(s[k] == p);
                    }
                    if self.pids@[j as int] == p {
                        assert(s[j as int] == p);
                    }
                }
                if self.pids[j] == p {
                    present = true;
                }
                j = j + 1;
            }
            assert(self.pids@.subrange(0, self.pids@.len() as int) =~= self.pids@);
            if !present {
                self.pids.push(p);
                proof {
                    assert forall|a: int, b: int|
                        0 <= a < self.pids@.len() && 0 <= b < self.pids@.len() && a != b
                        implies self.pids@[a] != self.pids@[b] by {
                        let last = self.pids@.len() - 1;
                        if a == last && b < last {
                            assert(self.pids@.drop_last()[b] == self.pids@[b]);
                        } else if b == last && a < last {
                            assert(self.pids@.drop_last()[a] == self.pids@[a]);
                        }
                    }
                }
            }
            i = i + 1;
        }
        assert(more@.subrange(0, more.len() as int) =~= more@);
    }
}

} // verus!
