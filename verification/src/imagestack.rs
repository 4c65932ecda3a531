//! The ordered stack of frame identifiers and its cursor.
//!
//! Discovery hands the stack one listing of candidate identifiers per
//! filename pattern, in pattern priority order; the first non-empty listing
//! wins and is sorted into ascending lexicographic order, so the temporal
//! sequence of frames is reproducible.
use rayon::slice::ParallelSliceMut;
use vstd::prelude::*;

verus! {

/// Lexicographic order on character sequences, by code point.
pub open spec fn lex_le(a: Seq<char>, b: Seq<char>) -> bool
    decreases a.len(),
{
    if a.len() == 0 {
        true
    } else if b.len() == 0 {
        false
    } else if a[0] == b[0] {
        lex_le(a.skip(1), b.skip(1))
    } else {
        (a[0] as u32) < (b[0] as u32)
    }
}

proof fn lemma_char_order_total(c: char, d: char)
    requires
        c != d,
    ensures
        (c as u32) < (d as u32) || (d as u32) < (c as u32),
{
}

proof fn lemma_lex_le_refl(a: Seq<char>)
    ensures
        lex_le(a, a),
    decreases a.len(),
{
    if a.len() > 0 {
        lemma_lex_le_refl(a.skip(1));
    }
}

proof fn lemma_lex_le_antisymmetric(a: Seq<char>, b: Seq<char>)
    requires
        lex_le(a, b),
        lex_le(b, a),
    ensures
        a == b,
    decreases a.len(),
{
    if a.len() == 0 {
        assert(b.len() == 0);
        assert(a =~= b);
    } else {
        assert(a[0] == b[0]);
        lemma_lex_le_antisymmetric(a.skip(1), b.skip(1));
        assert(a.skip(1).len() == a.len() - 1);
        assert(b.skip(1).len() == b.len() - 1);
        assert(a.len() == b.len());
        assert forall|i: int| 0 <= i < a.len() implies a[i] == b[i] by {
            if i >= 1 {
                assert(a[i] == a.skip(1)[i - 1]);
                assert(b[i] == b.skip(1)[i - 1]);
            }
        }
        assert(a =~= b);
    }
}

proof fn lemma_lex_le_transitive(a: Seq<char>, b: Seq<char>, c: Seq<char>)
    requires
        lex_le(a, b),
        lex_le(b, c),
    ensures
        lex_le(a, c),
    decreases a.len(),
{
    if a.len() > 0 {
        assert(b.len() > 0);
        assert(c.len() > 0);
        if a[0] == b[0] && b[0] == c[0] {
            lemma_lex_le_transitive(a.skip(1), b.skip(1), c.skip(1));
        }
    }
}

proof fn lemma_lex_le_connected(a: Seq<char>, b: Seq<char>)
    ensures
        lex_le(a, b) || lex_le(b, a),
    decreases a.len(),
{
    if a.len() == 0 {
        assert(lex_le(a, b));
    } else if b.len() == 0 {
        assert(lex_le(b, a));
    } else if a[0] == b[0] {
        lemma_lex_le_connected(a.skip(1), b.skip(1));
    } else {
        lemma_char_order_total(a[0], b[0]);
    }
}

/// The sorted frame order is reproducible: two sequences of identifiers
/// that are both sorted lexicographically and hold the same identifiers are
/// identical, duplicates included.  Whatever order discovery hands the
/// listing over in, the resulting stack is the same.
pub proof fn lemma_sorted_stack_unique(x: Seq<Seq<char>>, y: Seq<Seq<char>>)
    requires
        forall|i: int, j: int| 0 <= i < j < x.len() ==> #[trigger] lex_le(x[i], x[j]),
        forall|i: int, j: int| 0 <= i < j < y.len() ==> #[trigger] lex_le(y[i], y[j]),
        x.to_multiset() == y.to_multiset(),
    ensures
        x == y,
{
    let leq = |a: Seq<char>, b: Seq<char>| lex_le(a, b);
    assert(vstd::relations::total_ordering(leq)) by {
        assert forall|a: Seq<char>| #[trigger] leq(a, a) by {
            lemma_lex_le_refl(a);
        }
        assert forall|a: Seq<char>, b: Seq<char>| #[trigger] leq(a, b) && #[trigger] leq(b, a)
            implies a == b by {
            lemma_lex_le_antisymmetric(a, b);
        }
        assert forall|a: Seq<char>, b: Seq<char>, c: Seq<char>|
            #[trigger] leq(a, b) && #[trigger] leq(b, c) implies leq(a, c) by {
            lemma_lex_le_transitive(a, b, c);
        }
        assert forall|a: Seq<char>, b: Seq<char>| #[trigger] leq(a, b) || #[trigger] leq(b, a) by {
            lemma_lex_le_connected(a, b);
        }
    }
    assert(vstd::relations::sorted_by(x, leq));
    assert(vstd::relations::sorted_by(y, leq));
    vstd::seq_lib::lemma_sorted_unique(x, y, leq);
    assert(x =~= y);
}

/// Index of the first non-empty listing, `-1` when every listing is empty.
pub open spec fn first_nonempty(ls: Seq<Vec<String>>) -> int
    decreases ls.len(),
{
    if ls.len() == 0 {
        -1
    } else if ls[0]@.len() > 0 {
        0
    } else {
        let r = first_nonempty(ls.drop_first());
        if r < 0 {
            -1
        } else {
            1 + r
        }
    }
}

proof fn lemma_first_nonempty_at(ls: Seq<Vec<String>>, k: int)
    requires
        0 <= k < ls.len(),
        forall|m: int| 0 <= m < k ==> #[trigger] ls[m]@.len() == 0,
        ls[k]@.len() > 0,
    ensures
        first_nonempty(ls) == k,
    decreases k,
{
    if k > 0 {
        lemma_first_nonempty_at(ls.drop_first(), k - 1);
    }
}

proof fn lemma_first_nonempty_none(ls: Seq<Vec<String>>)
    requires
        forall|m: int| 0 <= m < ls.len() ==> #[trigger] ls[m]@.len() == 0,
    ensures
        first_nonempty(ls) == -1,
    decreases ls.len(),
{
    if ls.len() > 0 {
        lemma_first_nonempty_none(ls.drop_first());
    }
}

/// Relies on rayon's par_sort_unstable on a String vector: the result is a
/// permutation of the input in ascending String order, and String's Ord is
/// lexicographic on the UTF-8 bytes, which coincides with lexicographic
/// order on the code points.
#[verifier::external_body]
fn sort_strings(v: &mut Vec<String>)
    ensures
        final(v)@.len() == old(v)@.len(),
        final(v)@.map_values(|s: String| s@).to_multiset() == old(v)@.map_values(
            |s: String| s@,
        ).to_multiset(),
        forall|i: int, j: int|
            0 <= i < j < final(v)@.len() ==> #[trigger] lex_le(final(v)@[i]@, final(v)@[j]@),
{
    v.par_sort_unstable();
}

/// The ordered, immutable-once-loaded stack of frame identifiers, with a
/// cursor position and the directory they came from.
#[derive(Debug, Clone, PartialEq, Eq)]
pub struct ImageStack {
    pub homedir: Option<String>,
    pub pos: usize,
    pub stacks: Option<Vec<String>>,
}

impl ImageStack {
    /// Selects a working directory and adopts the frames it holds: the
    /// first non-empty listing, sorted ascending, with the cursor reset to
    /// the first frame.  When every listing is empty the previous frames
    /// and cursor are kept and `false` comes back.
    pub fn set_homedir(&mut self, homedir: String, listings: Vec<Vec<String>>) -> (ok: bool)
        ensures
            final(self).homedir == Some(homedir),
            ok ==> final(self).pos == 0,
            !ok ==> final(self).pos == old(self).pos,
            ok <==> first_nonempty(listings@) >= 0,
            !ok ==> final(self).stacks == old(self).stacks,
            ok ==> final(self).stacks.is_some(),
            ok ==> final(self).stacks.unwrap()@.map_values(|s: String| s@).to_multiset()
                == listings@[first_nonempty(listings@)]@.map_values(|s: String| s@).to_multiset(),
            ok ==> forall|i: int, j: int|
                0 <= i < j < final(self).stacks.unwrap()@.len() ==> #[trigger] lex_le(
                    final(self).stacks.unwrap()@[i]@,
                    final(self).stacks.unwrap()@[j]@,
                ),
    {
        self.homedir = Some(homedir);
        let n: usize = listings.len();
        let mut k: usize = 0;
        while k < n
            invariant
                0 <= k <= n,
                listings@.len() == n,
                self.homedir == Some(homedir),
                self.pos == old(self).pos,
                self.stacks == old(self).stacks,
                forall|m: int| 0 <= m < k ==> #[trigger] listings@[m]@.len() == 0,
            decreases n - k,
        {
            if listings[k].len() > 0 {
                proof {
                    lemma_first_nonempty_at(listings@, k as int);
                }
                let mut chosen: Vec<String> = listings[k].clone();
                proof {
                    assert forall|i: int| 0 <= i < listings@[k as int]@.len() implies chosen@[i]
                        == listings@[k as int]@[i] by {
                        assert(cloned(listings@[k as int]@[i], chosen@[i]));
                    }
                    assert(chosen@ =~= listings@[k as int]@);
                }
                sort_strings(&mut chosen);
                self.stacks = Some(chosen);
                self.pos = 0;
                return true;
            }
            k = k + 1;
        }
        proof {
            lemma_first_nonempty_none(listings@);
        }
        false
    }

    /// Number of frames; zero while no directory has been adopted.
    pub fn len(&self) -> (r: usize)
        ensures
            r == if self.stacks.is_some() {
                self.stacks.unwrap()@.len()
            } else {
                0
            },
    {
        match &self.stacks {
            Some(s) => s.len(),
            None => 0,
        }
    }

    /// Largest valid cursor position: one less than the frame count, zero
    /// when the stack is empty.
    pub fn max_slice(&self) -> (r: usize)
        ensures
            r == if self.stacks.is_some() && self.stacks.unwrap()@.len() > 0 {
                self.stacks.unwrap()@.len() - 1
            } else {
                0int
            },
    {
        let n = self.len();
        if n > 0 {
            n - 1
        } else {
            0
        }
    }

    /// A snapshot of the frame identifiers, to hand to a batch run.
    pub fn get_stacks(&self) -> (r: Option<Vec<String>>)
        ensures
            r.is_some() <==> self.stacks.is_some(),
            r.is_some() ==> r.unwrap()@ == self.stacks.unwrap()@,
    {
        match &self.stacks {
            Some(s) => {
                let cl = s.clone();
                proof {
                    assert forall|i: int| 0 <= i < s@.len() implies cl@[i] == s@[i] by {
                        assert(cloned(s@[i], cl@[i]));
                    }
                    assert(cl@ =~= s@);
                }
                Some(cl)
            },
            None => None,
        }
    }

    /// The frame pair at the cursor: `(previous, current)`, where the
    /// previous frame sits `step` positions back.  Either side is absent
    /// when its index is out of the stack's bounds, and both are absent
    /// while no frames are loaded.
    pub fn get_current_images(&self, step: usize) -> (r: (Option<String>, Option<String>))
        ensures
            match self.stacks {
                None => r == (None::<String>, None::<String>),
                Some(s) => {
                    &&& r.1 == if self.pos < s@.len() {
                        Some(s@[self.pos as int])
                    } else {
                        None::<String>
                    }
                    &&& r.0 == if self.pos >= step && self.pos - step < s@.len() {
                        Some(s@[self.pos - step])
                    } else {
                        None::<String>
                    }
                },
            },
    {
        match &self.stacks {
            None => (None, None),
            Some(s) => {
                let cur: Option<String> = if self.pos < s.len() {
                    Some(s[self.pos].clone())
                } else {
                    None
                };
                let prev: Option<String> = if self.pos >= step && self.pos - step < s.len() {
                    Some(s[self.pos - step].clone())
                } else {
                    None
                };
                (prev, cur)
            },
        }
    }

    /// Moves the cursor forward by `steps`, wrapping at the end of the
    /// stack.
    pub fn advance_wrapping(&mut self, steps: usize)
        requires
            old(self).stacks.is_some(),
            old(self).stacks.unwrap()@.len() > 0,
        ensures
            *final(self) == (ImageStack { pos: final(self).pos, ..*old(self) }),
            final(self).pos == ((old(self).pos as int) + (steps as int)) % (
            old(self).stacks.unwrap()@.len() as int),
    {
        let n: usize = match &self.stacks {
            Some(s) => s.len(),
            None => 1,
        };
        proof {
            vstd::arithmetic::div_mod::lemma_mod_bound(old(self).pos as int, n as int);
            vstd::arithmetic::div_mod::lemma_mod_bound(steps as int, n as int);
        }
        let p: usize = self.pos % n;
        let s: usize = steps % n;
        let r: usize = add_mod(p, s, n);
        proof {
            vstd::arithmetic::div_mod::lemma_add_mod_noop(
                old(self).pos as int,
                steps as int,
                n as int,
            );
        }
        self.pos = r;
    }

    /// Moves the cursor backward by `steps`, wrapping at the start of the
    /// stack.
    pub fn rewind_wrapping(&mut self, steps: usize)
        requires
            old(self).stacks.is_some(),
            old(self).stacks.unwrap()@.len() > 0,
        ensures
            *final(self) == (ImageStack { pos: final(self).pos, ..*old(self) }),
            final(self).pos == ((old(self).pos as int) + (old(self).stacks.unwrap()@.len() as int)
                - ((steps as int) % (old(self).stacks.unwrap()@.len() as int))) % (
            old(self).stacks.unwrap()@.len() as int),
    {
        let n: usize = match &self.stacks {
            Some(s) => s.len(),
            None => 1,
        };
        proof {
            vstd::arithmetic::div_mod::lemma_mod_bound(old(self).pos as int, n as int);
            vstd::arithmetic::div_mod::lemma_mod_bound(steps as int, n as int);
        }
        let p: usize = self.pos % n;
        let s: usize = steps % n;
        let r: usize = add_mod(p, n - s, n);
        proof {
            vstd::arithmetic::div_mod::lemma_add_mod_noop(
                old(self).pos as int,
                (n as int) - (steps as int) % (n as int),
                n as int,
            );
            vstd::arithmetic::div_mod::lemma_mod_twice(old(self).pos as int, n as int);
            if s > 0 {
                vstd::arithmetic::div_mod::lemma_small_mod(
                    ((n as int) - (s as int)) as nat,
                    n as nat,
                );
            } else {
                vstd::arithmetic::div_mod::lemma_mod_self_0(n as int);
                vstd::arithmetic::div_mod::lemma_mod_add_multiples_vanish(p as int, n as int);
                vstd::arithmetic::div_mod::lemma_small_mod(p as nat, n as nat);
            }
        }
        self.pos = r;
    }
}

/// `(p + q) % n`, computed without the sum ever overflowing.
fn add_mod(p: usize, q: usize, n: usize) -> (r: usize)
    requires
        0 < n,
        p < n,
        q <= n,
    ensures
        r as int == ((p as int) + (q as int)) % (n as int),
{
    if q >= n - p {
        let r: usize = q - (n - p);
        proof {
            vstd::arithmetic::div_mod::lemma_fundamental_div_mod_converse_mod(
                (p as int) + (q as int),
                n as int,
                1,
                r as int,
            );
        }
        r
    } else {
        let r: usize = p + q;
        proof {
            vstd::arithmetic::div_mod::lemma_small_mod(r as nat, n as nat);
        }
        r
    }
}

impl Default for ImageStack {
    /// An empty stack: no directory, no frames, cursor at zero.
    fn default() -> (r: ImageStack)
        ensures
            r == (ImageStack { homedir: None, pos: 0, stacks: None }),
    {
        ImageStack { homedir: None, pos: 0, stacks: None }
    }
}

} // verus!
