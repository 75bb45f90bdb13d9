//! Formatted text written into a fixed-size buffer that lives on the stack, with no allocator.
use vstd::array::array_fill_for_copy_types;
use vstd::prelude::*;
use vstd::slice::slice_subrange;
use vstd::string::StringSliceAdditionalSpecFns;
use vstd::utf8::*;

verus! {

broadcast use vstd::utf8::group_utf8_lib;

/// The largest `k <= limit` at which `frag` can be cut without splitting a character.
pub open spec fn cut_point(frag: Seq<u8>, limit: int) -> int
    decreases limit,
{
    if limit <= 0 {
        0
    } else if is_char_boundary(frag, limit) {
        limit
    } else {
        cut_point(frag, limit - 1)
    }
}

/// A cut point lies within its limit and, in valid text, never splits a character.
pub proof fn lemma_cut_point(frag: Seq<u8>, limit: int)
    ensures
        0 <= cut_point(frag, limit),
        limit >= 0 ==> cut_point(frag, limit) <= limit,
        valid_utf8(frag) ==> is_char_boundary(frag, cut_point(frag, limit)),
    decreases limit,
{
    if limit > 0 && !is_char_boundary(frag, limit) {
        lemma_cut_point(frag, limit - 1);
    }
}

/// Whether `frag` fits whole after `text` in a buffer of `cap` bytes.
pub open spec fn fits(text: Seq<u8>, cap: nat, frag: Seq<u8>) -> bool {
    text.len() + frag.len() <= cap
}

/// What a buffer of `cap` bytes holding `text` holds once `frag` has been appended: all of
/// `frag` when it fits, else its longest prefix that fits and ends on a character boundary.
pub open spec fn append_bytes(text: Seq<u8>, cap: nat, frag: Seq<u8>) -> Seq<u8> {
    if fits(text, cap, frag) {
        text + frag
    } else {
        text + frag.subrange(0, cut_point(frag, cap - text.len()))
    }
}

/// Whether a buffer that has overflowed (`full`) refuses `frag`: it refuses all but empty text.
pub open spec fn refused(full: bool, frag: Seq<u8>) -> bool {
    full && frag.len() > 0
}

/// Whether appending `frag` to a buffer of `cap` bytes holding `text` succeeds.
pub open spec fn accepted(text: Seq<u8>, full: bool, cap: nat, frag: Seq<u8>) -> bool {
    !refused(full, frag) && fits(text, cap, frag)
}

/// The text and the overflow mark of a buffer of `cap` bytes after `frag` is appended to one
/// holding `text` with mark `full`: a refused fragment changes nothing, any other is appended as
/// `append_bytes` says, and a fragment that does not fit sets the mark.
pub open spec fn append_step(text: Seq<u8>, full: bool, cap: nat, frag: Seq<u8>) -> (Seq<u8>, bool) {
    if refused(full, frag) {
        (text, full)
    } else {
        (append_bytes(text, cap, frag), full || !fits(text, cap, frag))
    }
}

/// The text and the overflow mark of a buffer of `cap` bytes holding `text` with mark `full`
/// once each of `frags` has been appended, in order.
pub open spec fn append_all(text: Seq<u8>, full: bool, cap: nat, frags: Seq<Seq<u8>>) -> (Seq<
    u8,
>, bool)
    decreases frags.len(),
{
    if frags.len() == 0 {
        (text, full)
    } else {
        let before = append_all(text, full, cap, frags.drop_last());
        append_step(before.0, before.1, cap, frags.last())
    }
}

/// The parts laid end to end.
pub open spec fn joined<A>(parts: Seq<Seq<A>>) -> Seq<A>
    decreases parts.len(),
{
    if parts.len() == 0 {
        Seq::empty()
    } else {
        joined(parts.drop_last()) + parts.last()
    }
}

/// Capacity: however many fragments are appended, and however long they are, a buffer never
/// holds more than its capacity.
pub proof fn lemma_capacity_kept(text: Seq<u8>, full: bool, cap: nat, frags: Seq<Seq<u8>>)
    requires
        text.len() <= cap,
    ensures
        append_all(text, full, cap, frags).0.len() <= cap,
    decreases frags.len(),
{
    if frags.len() > 0 {
        let before = append_all(text, full, cap, frags.drop_last());
        lemma_capacity_kept(text, full, cap, frags.drop_last());
        lemma_cut_point(frags.last(), cap - before.0.len());
    }
}

/// Fragments that fit together in a buffer that has not overflowed are all taken whole, one
/// after the other, and each of them succeeds.
pub proof fn lemma_all_fit(text: Seq<u8>, cap: nat, frags: Seq<Seq<u8>>)
    requires
        text.len() + joined(frags).len() <= cap,
    ensures
        append_all(text, false, cap, frags) == (text + joined(frags), false),
        forall|i: int|
            0 <= i < frags.len() ==> #[trigger] accepted(
                append_all(text, false, cap, frags.take(i)).0,
                append_all(text, false, cap, frags.take(i)).1,
                cap,
                frags[i],
            ),
    decreases frags.len(),
{
    if frags.len() > 0 {
        let init = frags.drop_last();
        lemma_all_fit(text, cap, init);
        assert(text + joined(frags) =~= text + joined(init) + frags.last());
        assert forall|i: int| 0 <= i < frags.len() implies #[trigger] accepted(
            append_all(text, false, cap, frags.take(i)).0,
            append_all(text, false, cap, frags.take(i)).1,
            cap,
            frags[i],
        ) by {
            if i < init.len() {
                assert(frags.take(i) =~= init.take(i));
                assert(frags[i] == init[i]);
            } else {
                assert(frags.take(i) =~= init);
            }
        }
    }
}

/// Exact fit: fragments whose lengths add up to the capacity, appended to an empty buffer, are
/// all taken whole, fill the buffer exactly, and none of them reports an overflow.
pub proof fn lemma_exact_fit(cap: nat, frags: Seq<Seq<u8>>)
    requires
        joined(frags).len() == cap,
    ensures
        append_all(Seq::empty(), false, cap, frags) == (joined(frags), false),
        append_all(Seq::empty(), false, cap, frags).0.len() == cap,
        forall|i: int|
            0 <= i < frags.len() ==> #[trigger] accepted(
                append_all(Seq::empty(), false, cap, frags.take(i)).0,
                append_all(Seq::empty(), false, cap, frags.take(i)).1,
                cap,
                frags[i],
            ),
{
    lemma_all_fit(Seq::empty(), cap, frags);
    assert(Seq::<u8>::empty() + joined(frags) =~= joined(frags));
}

/// Overflow: in a buffer that has not overflowed, a fragment longer than the room left fails,
/// marks the buffer, and fills it with exactly the fragment's first bytes, when the room left
/// ends on a character boundary of the fragment.
pub proof fn lemma_overflow_fills(text: Seq<u8>, cap: nat, frag: Seq<u8>)
    requires
        text.len() <= cap,
        frag.len() > cap - text.len(),
        valid_utf8(frag),
        is_char_boundary(frag, cap - text.len()),
    ensures
        !accepted(text, false, cap, frag),
        append_step(text, false, cap, frag) == (text + frag.take(cap - text.len()), true),
        append_step(text, false, cap, frag).0.len() == cap,
{
    let room = cap - text.len();
    if room > 0 {
        assert(cut_point(frag, room) == room);
    }
    assert(frag.subrange(0, cut_point(frag, room)) =~= frag.take(room));
}

/// Where two valid texts are laid end to end, the character boundaries up to the end of the
/// first are those of the first, and those after it are the second's, shifted.
proof fn lemma_concat_boundary(a: Seq<u8>, b: Seq<u8>, k: int)
    requires
        valid_utf8(a),
        valid_utf8(b),
        0 <= k <= a.len() + b.len(),
    ensures
        k < a.len() ==> (is_char_boundary(a + b, k) <==> is_char_boundary(a, k)),
        k >= a.len() ==> (is_char_boundary(a + b, k) <==> is_char_boundary(b, k - a.len())),
{
    let ab = a + b;
    assert(valid_utf8(ab));
    if k < a.len() {
        assert(ab[k] == a[k]);
        is_char_boundary_iff_not_is_continuation_byte(ab, k);
        is_char_boundary_iff_not_is_continuation_byte(a, k);
    } else if k < ab.len() {
        assert(ab[k] == b[k - a.len()]);
        is_char_boundary_iff_not_is_continuation_byte(ab, k);
        is_char_boundary_iff_not_is_continuation_byte(b, k - a.len());
    } else {
        is_char_boundary_start_end_of_seq(ab);
        is_char_boundary_start_end_of_seq(b);
    }
}

/// Cutting two texts laid end to end within the first cuts the first; cutting them past the
/// end of the first keeps the first whole and cuts the second.
proof fn lemma_cut_point_concat(a: Seq<u8>, b: Seq<u8>, limit: int)
    requires
        valid_utf8(a),
        valid_utf8(b),
        0 <= limit <= a.len() + b.len(),
    ensures
        limit < a.len() ==> cut_point(a + b, limit) == cut_point(a, limit),
        limit >= a.len() ==> cut_point(a + b, limit) == a.len() + cut_point(b, limit - a.len()),
    decreases limit,
{
    lemma_concat_boundary(a, b, limit);
    if limit > 0 {
        lemma_cut_point_concat(a, b, limit - 1);
    }
    if limit == a.len() {
        is_char_boundary_start_end_of_seq(b);
        is_char_boundary_start_end_of_seq(a);
    }
}

/// Splitting a write: appending `a` and then `b` leaves the same text and overflow mark as
/// appending `a` and `b` laid end to end, and one of the two fails exactly when the single
/// append fails, overflow included.
pub proof fn lemma_split_write(text: Seq<u8>, full: bool, cap: nat, a: Seq<u8>, b: Seq<u8>)
    requires
        text.len() <= cap,
        valid_utf8(a),
        valid_utf8(b),
    ensures
        ({
            let mid = append_step(text, full, cap, a);
            &&& append_step(mid.0, mid.1, cap, b) == append_step(text, full, cap, a + b)
            &&& (accepted(text, full, cap, a) && accepted(mid.0, mid.1, cap, b)) == accepted(
                text,
                full,
                cap,
                a + b,
            )
        }),
{
    let room = cap - text.len();
    let ab = a + b;
    if refused(full, a) {
    } else if full {
        assert(ab =~= b);
        assert(text + a =~= text);
    } else if fits(text, cap, a) {
        let mid = text + a;
        if fits(text, cap, ab) {
            assert(mid + b =~= text + ab);
        } else {
            lemma_cut_point_concat(a, b, room);
            lemma_cut_point(b, room - a.len());
            assert(mid + b.subrange(0, cut_point(b, room - a.len())) =~= text + ab.subrange(
                0,
                cut_point(ab, room),
            ));
        }
    } else {
        lemma_cut_point_concat(a, b, room);
        lemma_cut_point(a, room);
        assert(ab.subrange(0, cut_point(ab, room)) =~= a.subrange(0, cut_point(a, room)));
    }
}

/// The encoding of characters laid end to end is the encodings laid end to end.
pub proof fn lemma_encode_concat(a: Seq<char>, b: Seq<char>)
    ensures
        encode_utf8(a + b) == encode_utf8(a) + encode_utf8(b),
    decreases a.len(),
{
    if a.len() == 0 {
        assert(a + b =~= b);
        assert(Seq::<u8>::empty() + encode_utf8(b) =~= encode_utf8(b));
    } else {
        lemma_encode_concat(a.drop_first(), b);
        assert((a + b).drop_first() =~= a.drop_first() + b);
        assert(encode_utf8(a + b) =~= encode_utf8(a) + encode_utf8(b));
    }
}

/// The encodings of text fragments laid end to end are the encoding of the whole text.
pub proof fn lemma_encode_joined(pieces: Seq<Seq<char>>)
    ensures
        joined(pieces.map_values(|p: Seq<char>| encode_utf8(p))) == encode_utf8(joined(pieces)),
    decreases pieces.len(),
{
    let enc = pieces.map_values(|p: Seq<char>| encode_utf8(p));
    if pieces.len() > 0 {
        lemma_encode_joined(pieces.drop_last());
        assert(enc.drop_last() =~= pieces.drop_last().map_values(|p: Seq<char>| encode_utf8(p)));
        lemma_encode_concat(joined(pieces.drop_last()), pieces.last());
    }
}

/// Round trip: when the fragments of a pass fit, the buffer read as text is exactly the text
/// handed to it, unchanged.
pub proof fn lemma_round_trip(cap: nat, pieces: Seq<Seq<char>>)
    requires
        encode_utf8(joined(pieces)).len() <= cap,
    ensures
        decode_utf8(
            append_all(Seq::empty(), false, cap, pieces.map_values(|p: Seq<char>| encode_utf8(p))).0,
        )
            == joined(pieces),
{
    let enc = pieces.map_values(|p: Seq<char>| encode_utf8(p));
    lemma_encode_joined(pieces);
    lemma_all_fit(Seq::empty(), cap, enc);
    assert(Seq::<u8>::empty() + joined(enc) =~= joined(enc));
}

/// The error that a formatting sink reports to `core::fmt`; it carries no data.
#[verifier::external_type_specification]
pub struct ExFmtError(core::fmt::Error);

/// The arguments of one formatting call, as `format_args!` builds them.
#[verifier::external_type_specification]
#[verifier::external_body]
pub struct ExArguments<'a>(core::fmt::Arguments<'a>);

/// Relies on `core::fmt::write`: it renders `args` and hands the text to `sink` piece by piece
/// through the sink's `core::fmt::Write` methods, stopping at the first error.
#[verifier::external_body]
fn write_args<const N: usize>(sink: &mut ArrForm<N>, args: core::fmt::Arguments) -> (r:
    core::fmt::Result) {
    core::fmt::write(sink, args)
}

/// Relies on `core::str::from_utf8`: it accepts exactly the slices that are valid UTF-8 and
/// returns the same bytes viewed as text, without copying.
#[verifier::external_body]
fn text_of(b: &[u8]) -> (r: Option<&str>)
    ensures
        r is Some <==> valid_utf8(b@),
        r matches Some(t) ==> t.spec_bytes() == b@,
{
    core::str::from_utf8(b).ok()
}

/// A buffer of `BUF_SIZE` bytes that formatted text is written into, with no allocation.
///
/// Its view is the bytes written since the last `begin_format`. They never exceed the
/// capacity and always form valid UTF-8: a piece of text that does not fit is cut at the last
/// character boundary within the room left, so a character is never split (when a character
/// would straddle the end, fewer bytes than the room left are taken). Once a piece has not fit,
/// the buffer counts as overflowed and refuses all further text until `begin_format`.
pub struct ArrForm<const BUF_SIZE: usize> {
    buffer: [u8; BUF_SIZE],
    used: usize,
    full: bool,
}

impl<const BUF_SIZE: usize> View for ArrForm<BUF_SIZE> {
    type V = Seq<u8>;

    closed spec fn view(&self) -> Seq<u8> {
        self.buffer@.subrange(0, self.used as int)
    }
}

/// Copies `src[0..n]` into `dst[at..at + n]`, leaving every other byte of `dst` as it was.
fn copy_bytes<const N: usize>(dst: &mut [u8; N], at: usize, src: &[u8], n: usize)
    requires
        at + n <= N,
        n <= src@.len(),
    ensures
        final(dst)@.subrange(0, at as int) == old(dst)@.subrange(0, at as int),
        final(dst)@ == old(dst)@.subrange(0, at as int) + src@.subrange(0, n as int)
            + old(dst)@.subrange(at + n, N as int),
    no_unwind
{
    let mut i: usize = 0;
    while i < n
        invariant
            i <= n,
            at + n <= N,
            n <= src@.len(),
            dst@.len() == N,
            dst@.subrange(0, at as int) == old(dst)@.subrange(0, at as int),
            dst@.subrange(at as int, at + i) == src@.subrange(0, i as int),
            dst@.subrange(at + n, N as int) == old(dst)@.subrange(at + n, N as int),
        decreases n - i,
    {
        dst[at + i] = src[i];
        proof {
            assert(dst@.subrange(0, at as int) =~= old(dst)@.subrange(0, at as int));
            assert(dst@.subrange(at as int, at + i + 1) =~= src@.subrange(0, i + 1));
            assert(dst@.subrange(at + n, N as int) =~= old(dst)@.subrange(at + n, N as int));
        }
        i = i + 1;
    }
    assert(final(dst)@.subrange(0, at as int) =~= old(dst)@.subrange(0, at as int));
    assert(final(dst)@ =~= old(dst)@.subrange(0, at as int) + src@.subrange(0, n as int)
        + old(dst)@.subrange(at + n, N as int));
}

impl<const BUF_SIZE: usize> ArrForm<BUF_SIZE> {
    /// Whether a write has overflowed since the last `begin_format`.
    pub closed spec fn overflowed(&self) -> bool {
        self.full
    }

    #[verifier::type_invariant]
    closed spec fn inv(self) -> bool {
        &&& self.used <= BUF_SIZE
        &&& valid_utf8(self.buffer@.subrange(0, self.used as int))
    }

    /// An empty buffer.
    pub fn new() -> (r: Self)
        ensures
            r@ == Seq::<u8>::empty(),
            !r.overflowed(),
    {
        let buffer: [u8; BUF_SIZE] = array_fill_for_copy_types(0u8);
        let r = ArrForm { buffer, used: 0, full: false };
        assert(r@ =~= Seq::<u8>::empty());
        r
    }

    /// Forgets what an earlier pass wrote, so that the buffer can be written again.
    pub fn begin_format(&mut self)
        ensures
            final(self)@ == Seq::<u8>::empty(),
            !final(self).overflowed(),
    {
        self.used = 0;
        self.full = false;
        assert(self@ =~= Seq::<u8>::empty());
    }

    /// Renders `args` into the buffer, replacing what it held. On overflow the buffer keeps the
    /// text that fitted and the result is an error.
    pub fn format(&mut self, args: core::fmt::Arguments) -> (r: core::fmt::Result)
        ensures
            final(self)@.len() <= BUF_SIZE,
            valid_utf8(final(self)@),
    {
        self.begin_format();
        let r = write_args(self, args);
        proof {
            use_type_invariant(&*self);
        }
        r
    }

    /// The text written so far.
    pub fn as_str(&self) -> (r: &str)
        ensures
            r.spec_bytes() == self@,
            r@ == decode_utf8(self@),
    {
        proof {
            use_type_invariant(self);
        }
        match text_of(self.as_bytes()) {
            Some(t) => t,
            None => "",
        }
    }

    /// The bytes written so far.
    pub fn as_bytes(&self) -> (r: &[u8])
        ensures
            r@ == self@,
            r@.len() <= BUF_SIZE,
    {
        proof {
            use_type_invariant(self);
        }
        slice_subrange(self.buffer.as_slice(), 0, self.used)
    }
}

impl<const BUF_SIZE: usize> core::fmt::Write for ArrForm<BUF_SIZE> {
    /// Appends `s`, or as much of it as fits; reports an error when not all of it fitted. A
    /// buffer that has overflowed takes nothing more and reports an error for any non-empty `s`.
    fn write_str(&mut self, s: &str) -> (r: core::fmt::Result)
        ensures
            final(self)@.len() <= BUF_SIZE,
            valid_utf8(final(self)@),
            (final(self)@, final(self).overflowed()) == append_step(
                old(self)@,
                old(self).overflowed(),
                BUF_SIZE as nat,
                s.spec_bytes(),
            ),
            r is Ok <==> accepted(old(self)@, old(self).overflowed(), BUF_SIZE as nat, s.spec_bytes()),
    {
        proof {
            use_type_invariant(&*self);
        }
        let raw = s.as_bytes();
        if self.full && raw.len() > 0 {
            return Err(core::fmt::Error);
        }
        let room = BUF_SIZE - self.used;
        if raw.len() > room {
            let mut k: usize = room;
            while k > 0 && !s.is_char_boundary(k)
                invariant
                    k <= room,
                    raw@ == s.spec_bytes(),
                    cut_point(raw@, room as int) == cut_point(raw@, k as int),
                decreases k,
            {
                k = k - 1;
            }
            proof {
                lemma_cut_point(raw@, room as int);
                assert(cut_point(raw@, k as int) == k);
                valid_utf8_split(raw@, k as int);
                valid_utf8_concat(old(self)@, raw@.subrange(0, k as int));
            }
            copy_bytes(&mut self.buffer, self.used, raw, k);
            proof {
                assert(self.buffer@.subrange(0, self.used + k) =~= old(self)@ + raw@.subrange(
                    0,
                    k as int,
                ));
            }
            self.used = self.used + k;
            self.full = true;
            Err(core::fmt::Error)
        } else {
            copy_bytes(&mut self.buffer, self.used, raw, raw.len());
            proof {
                assert(self.buffer@.subrange(0, self.used + raw.len()) =~= old(self)@ + raw@);
            }
            self.used = self.used + raw.len();
            Ok(())
        }
    }
}

} // verus!
