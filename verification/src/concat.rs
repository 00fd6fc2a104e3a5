//! The concatenation pipeline: an ordered list of elements, each either a
//! bare value that shows itself or a (formatter, value) pair, rendered in
//! two passes.  The length pass sums each element's exact byte length; the
//! write pass emits each element in the same order, into one buffer sized
//! up front or into any byte sink, and stops at the first sink failure.
use vstd::prelude::*;

verus! {

use vstd::utf8::{
    encode_utf8, decode_utf8, valid_utf8, encode_utf8_valid_utf8, encode_utf8_decode_utf8,
};
use crate::encoding::lemma_encode_concat;
use crate::numfmt::{
    FormattedInt, dec_repr, dec_repr_signed, unsigned_repr, signed_repr, unsigned_wf, signed_wf,
    digits_of,
};
use crate::sink::{ByteSink, SinkError, VecSink, wrote_prefix, lemma_wrote_prefix_extend};
use crate::traits::{Show, Format, Rep, repeat_chars};

/// One element of a concatenation: a bare value that shows itself, or a
/// (formatter, value) pair.
pub enum Piece<'x> {
    /// A string slice, written byte for byte.
    Str(&'x str),
    /// A single character, UTF-8 encoded.
    Ch(char),
    /// An unsigned integer in bare decimal.
    Uint(u64),
    /// A signed integer in bare decimal.
    Int(i64),
    /// An unsigned integer under a numeric formatter.
    Fmt(FormattedInt<'x>, u64),
    /// A signed integer under a numeric formatter.
    FmtInt(FormattedInt<'x>, i64),
    /// A character repeated a fixed number of times.
    RepeatCh(Rep, char),
    /// A string slice repeated a fixed number of times.
    RepeatStr(Rep, &'x str),
}

/// The characters one piece renders to.
pub open spec fn piece_repr<'x>(p: Piece<'x>) -> Seq<char> {
    match p {
        Piece::Str(s) => s@,
        Piece::Ch(c) => seq![c],
        Piece::Uint(x) => dec_repr(x),
        Piece::Int(x) => dec_repr_signed(x),
        Piece::Fmt(f, x) => unsigned_repr(
            f.digits@,
            f.prefix@,
            f.suffix@,
            f.min_len as nat,
            f.sign,
            x,
        ),
        Piece::FmtInt(f, x) => signed_repr(
            f.digits@,
            f.prefix@,
            f.suffix@,
            f.min_len as nat,
            f.sign,
            x,
        ),
        Piece::RepeatCh(r, c) => repeat_chars(seq![c], r.0 as nat),
        Piece::RepeatStr(r, s) => repeat_chars(s@, r.0 as nat),
    }
}

/// When one piece can be rendered.
pub open spec fn piece_wf<'x>(p: Piece<'x>) -> bool {
    match p {
        Piece::Str(s) => encode_utf8(s@).len() <= usize::MAX,
        Piece::Ch(_) => true,
        Piece::Uint(x) => digits_of(10, x as nat).len() <= 19,
        Piece::Int(_) => true,
        Piece::Fmt(f, x) => unsigned_wf(
            f.digits@,
            f.prefix@,
            f.suffix@,
            f.min_len as nat,
            f.sign,
            x,
        ),
        Piece::FmtInt(f, x) => signed_wf(
            f.digits@,
            f.prefix@,
            f.suffix@,
            f.min_len as nat,
            f.sign,
            x,
        ),
        Piece::RepeatCh(r, c) => r.0 * encode_utf8(seq![c]).len() <= usize::MAX,
        Piece::RepeatStr(r, s) => encode_utf8(s@).len() <= usize::MAX && r.0 * encode_utf8(
            s@,
        ).len() <= usize::MAX,
    }
}

impl<'x> Show for Piece<'x> {
    open spec fn repr(&self) -> Seq<char> {
        piece_repr(*self)
    }

    open spec fn wf(&self) -> bool {
        piece_wf(*self)
    }

    fn len(&self) -> (n: usize) {
        match self {
            Piece::Str(s) => Show::len(*s),
            Piece::Ch(c) => Show::len(c),
            Piece::Uint(x) => Show::len(x),
            Piece::Int(x) => Show::len(x),
            Piece::Fmt(f, x) => Format::len(f, x),
            Piece::FmtInt(f, x) => Format::len(f, x),
            Piece::RepeatCh(r, c) => Format::len(r, c),
            Piece::RepeatStr(r, s) => Format::len(r, s),
        }
    }

    fn write<W: ByteSink>(&self, w: &mut W) -> (r: Result<usize, SinkError>) {
        match self {
            Piece::Str(s) => Show::write(*s, w),
            Piece::Ch(c) => Show::write(c, w),
            Piece::Uint(x) => Show::write(x, w),
            Piece::Int(x) => Show::write(x, w),
            Piece::Fmt(f, x) => Format::write(f, x, w),
            Piece::FmtInt(f, x) => Format::write(f, x, w),
            Piece::RepeatCh(r, c) => Format::write(r, c, w),
            Piece::RepeatStr(r, s) => Format::write(r, s, w),
        }
    }
}

/// The characters an ordered list of pieces renders to, in order.
pub open spec fn pieces_repr<'x>(items: Seq<Piece<'x>>) -> Seq<char>
    decreases items.len(),
{
    if items.len() == 0 {
        Seq::<char>::empty()
    } else {
        pieces_repr(items.drop_last()) + piece_repr(items.last())
    }
}

/// Every piece of the list can be rendered.
pub open spec fn pieces_wf<'x>(items: Seq<Piece<'x>>) -> bool {
    forall|i: int| 0 <= i < items.len() ==> piece_wf(#[trigger] items[i])
}

/// Extending a prefix of the list by one piece appends that piece's
/// rendering.
pub proof fn lemma_pieces_repr_take<'x>(items: Seq<Piece<'x>>, i: int)
    requires
        0 <= i < items.len(),
    ensures
        pieces_repr(items.take(i + 1)) == pieces_repr(items.take(i)) + piece_repr(items[i]),
{
    assert(items.take(i + 1).drop_last() =~= items.take(i));
    assert(items.take(i + 1).last() == items[i]);
}

/// The whole rendering splits at any position into the renderings of the
/// two halves.
pub proof fn lemma_pieces_repr_split<'x>(items: Seq<Piece<'x>>, j: int)
    requires
        0 <= j <= items.len(),
    ensures
        pieces_repr(items) == pieces_repr(items.take(j)) + pieces_repr(items.skip(j)),
    decreases items.len(),
{
    if j == items.len() {
        assert(items.take(j) =~= items);
        assert(items.skip(j) =~= Seq::<Piece>::empty());
        assert(pieces_repr(items) + pieces_repr(items.skip(j)) =~= pieces_repr(items));
    } else {
        let dl = items.drop_last();
        lemma_pieces_repr_split(dl, j);
        assert(dl.take(j) =~= items.take(j));
        assert(items.skip(j).drop_last() =~= dl.skip(j));
        assert(items.skip(j).last() == items.last());
        assert(pieces_repr(items) =~= pieces_repr(items.take(j)) + pieces_repr(items.skip(j)));
    }
}

/// The length pass: sum, in order, each piece's exact byte length.
#[verifier::loop_isolation(false)]
pub fn concat_len(items: &[Piece]) -> (n: usize)
    requires
        pieces_wf(items@),
        encode_utf8(pieces_repr(items@)).len() <= usize::MAX,
    ensures
        n == encode_utf8(pieces_repr(items@)).len(),
{
    let mut total: usize = 0;
    let mut i: usize = 0;
    proof {
        assert(items@.take(0) =~= Seq::<Piece>::empty());
    }
    while i < items.len()
        invariant
            i <= items@.len(),
            total == encode_utf8(pieces_repr(items@.take(i as int))).len(),
        decreases items@.len() - i,
    {
        proof {
            lemma_pieces_repr_take(items@, i as int);
            lemma_encode_concat(pieces_repr(items@.take(i as int)), piece_repr(items@[i as int]));
            lemma_pieces_repr_split(items@, i + 1);
            lemma_encode_concat(
                pieces_repr(items@.take(i + 1)),
                pieces_repr(items@.skip(i + 1)),
            );
        }
        let ln = Show::len(&items[i]);
        total = total + ln;
        i = i + 1;
    }
    proof {
        assert(items@.take(items@.len() as int) =~= items@);
    }
    total
}

/// The write pass against an arbitrary sink: write each piece in order and
/// return the total byte count.  A failing write aborts the rest at once
/// and hands the failure back, leaving whatever prefix of the rendering
/// already arrived in the sink.  An empty list, which makes no sink call,
/// always succeeds, and so does every list on a sink that never fails.
#[verifier::loop_isolation(false)]
pub fn concat_to_sink<W: ByteSink>(items: &[Piece], w: &mut W) -> (r: Result<usize, SinkError>)
    requires
        pieces_wf(items@),
        encode_utf8(pieces_repr(items@)).len() <= usize::MAX,
    ensures
        (match r {
            Ok(n) => {
                &&& final(w).contents() == old(w).contents() + encode_utf8(pieces_repr(items@))
                &&& n == encode_utf8(pieces_repr(items@)).len()
            },
            Err(_) => wrote_prefix(
                old(w).contents(),
                final(w).contents(),
                encode_utf8(pieces_repr(items@)),
            ),
        }),
        items@.len() == 0 ==> r is Ok,
        old(w).infallible() ==> r is Ok && final(w).infallible(),
{
    let mut total: usize = 0;
    let mut i: usize = 0;
    proof {
        assert(items@.take(0) =~= Seq::<Piece>::empty());
    }
    while i < items.len()
        invariant
            i <= items@.len(),
            total == encode_utf8(pieces_repr(items@.take(i as int))).len(),
            w.contents() == old(w).contents() + encode_utf8(pieces_repr(items@.take(i as int))),
            old(w).infallible() ==> w.infallible(),
        decreases items@.len() - i,
    {
        proof {
            lemma_pieces_repr_take(items@, i as int);
            lemma_encode_concat(pieces_repr(items@.take(i as int)), piece_repr(items@[i as int]));
            lemma_pieces_repr_split(items@, i + 1);
            lemma_encode_concat(
                pieces_repr(items@.take(i + 1)),
                pieces_repr(items@.skip(i + 1)),
            );
        }
        let ln = match Show::write(&items[i], w) {
            Ok(n) => n,
            Err(e) => {
                proof {
                    assert(old(w).contents() + encode_utf8(pieces_repr(items@.take(i as int)))
                        =~= old(w).contents() + encode_utf8(pieces_repr(items@.take(i as int))));
                    lemma_wrote_prefix_extend(
                        old(w).contents(),
                        encode_utf8(pieces_repr(items@.take(i as int))),
                        encode_utf8(piece_repr(items@[i as int])),
                        encode_utf8(pieces_repr(items@.skip(i + 1))),
                        w.contents(),
                    );
                    assert(encode_utf8(pieces_repr(items@)) =~= encode_utf8(
                        pieces_repr(items@.take(i as int)),
                    ) + encode_utf8(piece_repr(items@[i as int])) + encode_utf8(
                        pieces_repr(items@.skip(i + 1)),
                    ));
                }
                return Err(e);
            },
        };
        total = total + ln;
        i = i + 1;
    }
    proof {
        assert(items@.take(items@.len() as int) =~= items@);
    }
    Ok(total)
}

/// Relies on String::from_utf8: bytes that are valid UTF-8 come back as
/// the string that decodes them.
#[verifier::external_body]
fn string_from_utf8(v: Vec<u8>) -> (s: String)
    requires
        valid_utf8(v@),
    ensures
        s@ == decode_utf8(v@),
{
    String::from_utf8(v).unwrap()
}

/// Both passes against a fresh in-memory buffer: size it exactly, write
/// every piece, and check the bytes as UTF-8 once at the end.  Nothing on
/// this path can fail: the in-memory sink accepts every write, and the
/// buffer is an encoded character sequence, so it decodes to exactly the
/// concatenated renderings.
pub fn concat_to_string(items: &[Piece]) -> (s: String)
    requires
        pieces_wf(items@),
        encode_utf8(pieces_repr(items@)).len() <= usize::MAX,
    ensures
        s@ == pieces_repr(items@),
{
    let n = concat_len(items);
    let mut sink = VecSink::with_capacity(n);
    match concat_to_sink(items, &mut sink) {
        Ok(_total) => {
            let bytes = sink.into_bytes();
            proof {
                encode_utf8_valid_utf8(pieces_repr(items@));
                encode_utf8_decode_utf8(pieces_repr(items@));
                assert(bytes@ =~= encode_utf8(pieces_repr(items@)));
            }
            string_from_utf8(bytes)
        },
        Err(_) => {
            // an infallible sink never reaches this arm
            proof {
                assert(false);
            }
            String::new()
        },
    }
}

} // verus!
