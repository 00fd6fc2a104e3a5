//! The two formatting capabilities.  A `Show` value knows the exact byte
//! length of its own rendering and can write exactly those bytes to a sink;
//! a `Format` value does the same for values of some other type.  The hard
//! invariant, carried by every implementation, is that a successful `write`
//! appends precisely the rendering whose length `len` reported.
use vstd::prelude::*;

verus! {

use vstd::utf8::{encode_scalar, encode_utf8};
use crate::encoding::{utf8_len, lemma_encode_singleton, lemma_encode_concat};
use crate::sink::{ByteSink, SinkError, Utf8Write, wrote_prefix, lemma_wrote_prefix_extend};

/// A value that can display itself: `repr` is the character sequence it
/// renders to, `len` returns that rendering's byte length, and `write`
/// appends exactly those bytes to a sink.
pub trait Show {
    /// The characters this value renders to.
    spec fn repr(&self) -> Seq<char>;

    /// When the value can be rendered at all: its rendering's byte length
    /// must fit the machine, and numeric renderings must stay inside the
    /// range the digit-reversal technique supports.
    spec fn wf(&self) -> bool;

    /// How many bytes the UTF-8 rendering of `self` takes.
    fn len(&self) -> (n: usize)
        requires
            self.wf(),
        ensures
            n == encode_utf8(self.repr()).len(),
    ;

    /// Write the rendering of `self` to `w`.  On success the number of
    /// bytes written is exactly what `len` reported; on failure whatever
    /// prefix of the rendering already reached the sink stays there.  On a
    /// sink that never fails, the write never fails.
    fn write<W: ByteSink>(&self, w: &mut W) -> (r: Result<usize, SinkError>)
        requires
            self.wf(),
        ensures
            (match r {
                Ok(n) => {
                    &&& final(w).contents() == old(w).contents() + encode_utf8(self.repr())
                    &&& n == encode_utf8(self.repr()).len()
                },
                Err(_) => wrote_prefix(
                    old(w).contents(),
                    final(w).contents(),
                    encode_utf8(self.repr()),
                ),
            }),
            old(w).infallible() ==> r is Ok && final(w).infallible(),
    ;
}

/// A reusable descriptor that renders values of another type `T`:
/// `fmt_repr` is the character sequence `t` formats to under `self`.
pub trait Format<T> {
    /// The characters `t` renders to under this formatter.
    spec fn fmt_repr(&self, t: &T) -> Seq<char>;

    /// When `t` can be rendered under this formatter.
    spec fn fmt_wf(&self, t: &T) -> bool;

    /// How many bytes the UTF-8 rendering of `t` under `self` takes.
    fn len(&self, t: &T) -> (n: usize)
        requires
            self.fmt_wf(t),
        ensures
            n == encode_utf8(self.fmt_repr(t)).len(),
    ;

    /// Write the rendering of `t` under `self` to `w`.  On success the
    /// number of bytes written is exactly what `len` reported; on failure
    /// whatever prefix of the rendering already reached the sink stays
    /// there.  On a sink that never fails, the write never fails.
    fn write<W: ByteSink>(&self, t: &T, w: &mut W) -> (r: Result<usize, SinkError>)
        requires
            self.fmt_wf(t),
        ensures
            (match r {
                Ok(n) => {
                    &&& final(w).contents() == old(w).contents() + encode_utf8(self.fmt_repr(t))
                    &&& n == encode_utf8(self.fmt_repr(t)).len()
                },
                Err(_) => wrote_prefix(
                    old(w).contents(),
                    final(w).contents(),
                    encode_utf8(self.fmt_repr(t)),
                ),
            }),
            old(w).infallible() ==> r is Ok && final(w).infallible(),
    ;
}

impl Show for str {
    open spec fn repr(&self) -> Seq<char> {
        self@
    }

    open spec fn wf(&self) -> bool {
        encode_utf8(self@).len() <= usize::MAX
    }

    fn len(&self) -> (n: usize) {
        str::len(self)
    }

    fn write<W: ByteSink>(&self, w: &mut W) -> (r: Result<usize, SinkError>) {
        Utf8Write::push_str(w, self)
    }
}

impl Show for String {
    open spec fn repr(&self) -> Seq<char> {
        self@
    }

    open spec fn wf(&self) -> bool {
        encode_utf8(self@).len() <= usize::MAX
    }

    fn len(&self) -> (n: usize) {
        str::len(self.as_str())
    }

    fn write<W: ByteSink>(&self, w: &mut W) -> (r: Result<usize, SinkError>) {
        Utf8Write::push_str(w, self.as_str())
    }
}

impl Show for char {
    open spec fn repr(&self) -> Seq<char> {
        seq![*self]
    }

    open spec fn wf(&self) -> bool {
        true
    }

    fn len(&self) -> (n: usize) {
        proof {
            lemma_encode_singleton(*self);
        }
        utf8_len(*self)
    }

    fn write<W: ByteSink>(&self, w: &mut W) -> (r: Result<usize, SinkError>) {
        proof {
            lemma_encode_singleton(*self);
        }
        Utf8Write::push(w, *self)
    }
}

impl<'x, T: Show + ?Sized> Show for &'x T {
    open spec fn repr(&self) -> Seq<char> {
        (**self).repr()
    }

    open spec fn wf(&self) -> bool {
        (**self).wf()
    }

    fn len(&self) -> (n: usize) {
        Show::len(*self)
    }

    fn write<W: ByteSink>(&self, w: &mut W) -> (r: Result<usize, SinkError>) {
        Show::write(*self, w)
    }
}

impl<T: Show> Show for Option<T> {
    /// An absent value renders to nothing; a present one to its own rendering.
    open spec fn repr(&self) -> Seq<char> {
        match self {
            Some(t) => t.repr(),
            None => Seq::<char>::empty(),
        }
    }

    open spec fn wf(&self) -> bool {
        match self {
            Some(t) => t.wf(),
            None => true,
        }
    }

    fn len(&self) -> (n: usize) {
        match self {
            Some(t) => Show::len(t),
            None => 0,
        }
    }

    /// An absent value makes no sink call at all, so it cannot fail.
    fn write<W: ByteSink>(&self, w: &mut W) -> (r: Result<usize, SinkError>)
        ensures
            self is None ==> r is Ok,
    {
        match self {
            Some(t) => Show::write(t, w),
            None => Ok(0),
        }
    }
}

impl<'x, T: Format<U> + ?Sized, U> Format<U> for &'x T {
    open spec fn fmt_repr(&self, u: &U) -> Seq<char> {
        (**self).fmt_repr(u)
    }

    open spec fn fmt_wf(&self, u: &U) -> bool {
        (**self).fmt_wf(u)
    }

    fn len(&self, u: &U) -> (n: usize) {
        Format::len(*self, u)
    }

    fn write<W: ByteSink>(&self, u: &U, w: &mut W) -> (r: Result<usize, SinkError>) {
        Format::write(*self, u, w)
    }
}

/// The character sequence `s` repeated `n` times, back to back.
pub open spec fn repeat_chars(s: Seq<char>, n: nat) -> Seq<char>
    decreases n,
{
    if n == 0 {
        Seq::<char>::empty()
    } else {
        repeat_chars(s, (n - 1) as nat) + s
    }
}

/// The encoding of `n` repetitions is `n` copies of the encoding, so its
/// length is `n` times the single length.
pub proof fn lemma_repeat_encoded_len(s: Seq<char>, n: nat)
    ensures
        encode_utf8(repeat_chars(s, n)) == if n == 0 {
            Seq::<u8>::empty()
        } else {
            encode_utf8(repeat_chars(s, (n - 1) as nat)) + encode_utf8(s)
        },
        encode_utf8(repeat_chars(s, n)).len() == n * encode_utf8(s).len(),
    decreases n,
{
    if n == 0 {
        assert(encode_utf8(repeat_chars(s, 0)) =~= Seq::<u8>::empty());
    } else {
        lemma_repeat_encoded_len(s, (n - 1) as nat);
        lemma_encode_concat(repeat_chars(s, (n - 1) as nat), s);
        let unit = encode_utf8(s).len();
        assert((n - 1) * unit + unit == n * unit) by (nonlinear_arith);
    }
}

/// A repetition can be peeled from the front as well as from the back.
pub proof fn lemma_repeat_unfold_left(s: Seq<char>, n: nat)
    requires
        n >= 1,
    ensures
        repeat_chars(s, n) == s + repeat_chars(s, (n - 1) as nat),
    decreases n,
{
    if n == 1 {
        assert(repeat_chars(s, 1) =~= s + repeat_chars(s, 0));
    } else {
        lemma_repeat_unfold_left(s, (n - 1) as nat);
        assert(repeat_chars(s, n) =~= s + repeat_chars(s, (n - 1) as nat));
    }
}

/// A repetition splits at any point into two shorter repetitions.
pub proof fn lemma_repeat_split(s: Seq<char>, a: nat, b: nat)
    ensures
        repeat_chars(s, a + b) == repeat_chars(s, a) + repeat_chars(s, b),
    decreases b,
{
    if b == 0 {
        assert(repeat_chars(s, a) + repeat_chars(s, 0) =~= repeat_chars(s, a));
    } else {
        lemma_repeat_split(s, a, (b - 1) as nat);
        assert(repeat_chars(s, a + b) =~= repeat_chars(s, a) + repeat_chars(s, b));
    }
}

/// A formatter that renders a `Show` value a fixed number of times in a row.
pub struct Rep(pub usize);

impl<T: Show> Format<T> for Rep {
    open spec fn fmt_repr(&self, t: &T) -> Seq<char> {
        repeat_chars(t.repr(), self.0 as nat)
    }

    open spec fn fmt_wf(&self, t: &T) -> bool {
        &&& t.wf()
        &&& self.0 * encode_utf8(t.repr()).len() <= usize::MAX
    }

    fn len(&self, t: &T) -> (n: usize) {
        proof {
            lemma_repeat_encoded_len(t.repr(), self.0 as nat);
        }
        self.0 * Show::len(t)
    }

    /// Repeating a value zero times writes nothing, so it cannot fail.
    fn write<W: ByteSink>(&self, t: &T, w: &mut W) -> (r: Result<usize, SinkError>)
        ensures
            self.0 == 0 ==> r is Ok,
    {
        let ghost unit: int = encode_utf8(t.repr()).len() as int;
        let mut total: usize = 0;
        let mut i: usize = 0;
        proof {
            lemma_repeat_encoded_len(t.repr(), 0);
        }
        while i < self.0
            invariant
                i <= self.0,
                t.wf(),
                self.0 * unit <= usize::MAX,
                unit == encode_utf8(t.repr()).len(),
                total == i * unit,
                w.contents() == old(w).contents() + encode_utf8(repeat_chars(t.repr(), i as nat)),
                old(w).infallible() ==> w.infallible(),
            decreases self.0 - i,
        {
            proof {
                assert((i + 1) * unit <= self.0 * unit) by (nonlinear_arith)
                    requires
                        i + 1 <= self.0,
                        unit >= 0,
                ;
            }
            match Show::write(t, w) {
                Ok(n) => {
                    proof {
                        lemma_repeat_encoded_len(t.repr(), (i + 1) as nat);
                        assert((i + 1) * unit == i * unit + unit) by (nonlinear_arith);
                    }
                    total = total + n;
                    i = i + 1;
                },
                Err(e) => {
                    proof {
                        let s = t.repr();
                        let left = (self.0 - i - 1) as nat;
                        lemma_repeat_split(s, i as nat, (self.0 - i) as nat);
                        lemma_repeat_unfold_left(s, (self.0 - i) as nat);
                        lemma_encode_concat(repeat_chars(s, i as nat), s + repeat_chars(s, left));
                        lemma_encode_concat(s, repeat_chars(s, left));
                        lemma_wrote_prefix_extend(
                            old(w).contents(),
                            encode_utf8(repeat_chars(s, i as nat)),
                            encode_utf8(s),
                            encode_utf8(repeat_chars(s, left)),
                            w.contents(),
                        );
                        assert(encode_utf8(repeat_chars(s, self.0 as nat)) =~= encode_utf8(
                            repeat_chars(s, i as nat),
                        ) + encode_utf8(s) + encode_utf8(repeat_chars(s, left)));
                    }
                    return Err(e);
                },
            }
        }
        proof {
            lemma_repeat_encoded_len(t.repr(), self.0 as nat);
        }
        Ok(total)
    }
}

} // verus!
