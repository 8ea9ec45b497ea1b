//! Byte-exact rewriting of a source text at given offsets.

use vstd::prelude::*;
use vstd::string::StringSliceAdditionalSpecFns;

verus! {

/// `source` with the bytes at `[start, end)` replaced by `text`.
pub open spec fn spliced(source: Seq<u8>, text: Seq<u8>, start: int, end: int) -> Seq<u8> {
    source.subrange(0, start) + text + source.subrange(end, source.len() as int)
}

/// `text` between the markers of a block comment.
pub open spec fn commented(text: Seq<u8>) -> Seq<u8> {
    "/*".spec_bytes() + text + "*/".spec_bytes()
}

/// Appends `part` to `out`.
pub fn append_bytes(out: &mut Vec<u8>, part: &[u8])
    ensures
        final(out)@ == old(out)@ + part@,
{
    let mut i: usize = 0;
    while i < part.len()
        invariant
            i <= part.len(),
            out@ == old(out)@ + part@.subrange(0, i as int),
        decreases part.len() - i,
    {
        out.push(part[i]);
        i += 1;
    }
}

/// Whether two byte strings are the same.
pub fn same_bytes(a: &[u8], b: &[u8]) -> (same: bool)
    ensures
        same == (a@ == b@),
{
    if a.len() != b.len() {
        return false;
    }
    let mut i: usize = 0;
    while i < a.len()
        invariant
            i <= a.len(),
            a.len() == b.len(),
            a@.subrange(0, i as int) == b@.subrange(0, i as int),
        decreases a.len() - i,
    {
        if a[i] != b[i] {
            return false;
        }
        proof {
            assert(a@.subrange(0, i + 1) =~= a@.subrange(0, i as int).push(a@[i as int]));
            assert(b@.subrange(0, i + 1) =~= b@.subrange(0, i as int).push(b@[i as int]));
        }
        i += 1;
    }
    proof {
        assert(a@ =~= a@.subrange(0, a@.len() as int));
        assert(b@ =~= b@.subrange(0, b@.len() as int));
    }
    true
}

/// Whether two strings hold the same characters.
pub fn same_text(a: &str, b: &str) -> (same: bool)
    ensures
        same == (a@ == b@),
{
    let same = same_bytes(a.as_bytes(), b.as_bytes());
    proof {
        vstd::utf8::encode_utf8_decode_utf8(a@);
        vstd::utf8::encode_utf8_decode_utf8(b@);
    }
    same
}

/// The bytes of `source` at `[start, end)`.
pub fn copy_span(source: &[u8], start: usize, end: usize) -> (out: Vec<u8>)
    requires
        start <= end <= source@.len(),
    ensures
        out@ == source@.subrange(start as int, end as int),
{
    let mut out: Vec<u8> = Vec::new();
    append_bytes(&mut out, vstd::slice::slice_subrange(source, start, end));
    out
}

/// The whole of `source` with `[start, end)` replaced by `text`.
pub fn replace_span(source: &[u8], text: &[u8], start: usize, end: usize) -> (out: Vec<u8>)
    requires
        start <= end <= source@.len(),
    ensures
        out@ == spliced(source@, text@, start as int, end as int),
{
    let mut out: Vec<u8> = Vec::new();
    append_bytes(&mut out, vstd::slice::slice_subrange(source, 0, start));
    append_bytes(&mut out, text);
    append_bytes(&mut out, vstd::slice::slice_subrange(source, end, source.len()));
    out
}

/// `text` wrapped in a block comment.
pub fn comment_wrap(text: &[u8]) -> (out: Vec<u8>)
    ensures
        out@ == commented(text@),
{
    let mut out: Vec<u8> = Vec::new();
    append_bytes(&mut out, "/*".as_bytes());
    append_bytes(&mut out, text);
    append_bytes(&mut out, "*/".as_bytes());
    out
}

/// Putting a span's own bytes back in its place leaves the text as it was.
pub proof fn lemma_splice_same(source: Seq<u8>, start: int, end: int)
    requires
        0 <= start <= end <= source.len(),
    ensures
        spliced(source, source.subrange(start, end), start, end) == source,
{
}

/// A splice changes nothing before the span, puts the new text at the span's
/// start, and keeps what followed the span behind the new text.
pub proof fn lemma_splice_layout(source: Seq<u8>, text: Seq<u8>, start: int, end: int)
    requires
        0 <= start <= end <= source.len(),
    ensures
        spliced(source, text, start, end).len() == source.len() - (end - start) + text.len(),
        spliced(source, text, start, end).subrange(0, start) == source.subrange(0, start),
        spliced(source, text, start, end).subrange(start, start + text.len()) == text,
        spliced(source, text, start, end).subrange(
            start + text.len(),
            source.len() - (end - start) + text.len(),
        ) == source.subrange(end, source.len() as int),
{
}

/// One replacement as a value: the bytes at `[start, end)` give way to
/// `text`.
pub struct Patch {
    /// Where the span starts.
    pub start: int,
    /// Where the span ends: the index behind its last byte.
    pub end: int,
    /// What comes in the span's place.
    pub text: Seq<u8>,
}

/// One replacement: the bytes at `[start, end)` give way to `text`.
#[derive(Debug)]
pub struct Edit {
    /// Where the span starts.
    pub start: usize,
    /// Where the span ends: the index behind its last byte.
    pub end: usize,
    /// What comes in the span's place.
    pub text: Vec<u8>,
}

impl View for Edit {
    type V = Patch;

    open spec fn view(&self) -> Patch {
        Patch { start: self.start as int, end: self.end as int, text: self.text@ }
    }
}

/// The replacements that a list of edits stands for.
pub open spec fn patches(edits: Seq<Edit>) -> Seq<Patch> {
    Seq::new(edits.len(), |i: int| edits[i]@)
}

/// Every span is a range of a text of `len` bytes.
pub open spec fn all_fit(edits: Seq<Patch>, len: int) -> bool {
    forall|i: int| 0 <= i < edits.len() ==> 0 <= (#[trigger] edits[i]).start <= edits[i].end <= len
}

/// No two spans share a byte.
pub open spec fn disjoint(edits: Seq<Patch>) -> bool {
    forall|i: int, j: int|
        0 <= i < edits.len() && 0 <= j < edits.len() && i != j ==> (#[trigger] edits[i]).end <= (
        #[trigger] edits[j]).start || edits[j].end <= edits[i].start
}

/// `a` lies no further right than `b`: by where the spans start, then by
/// where they end.
pub open spec fn not_right_of(a: Patch, b: Patch) -> bool {
    a.start < b.start || (a.start == b.start && a.end <= b.end)
}

/// Index of the edit that lies furthest right; of several with one and the
/// same span, the last in the list.
pub open spec fn rightmost(edits: Seq<Patch>) -> int
    decreases edits.len(),
{
    if edits.len() <= 1 {
        0
    } else {
        let k = rightmost(edits.drop_last());
        if not_right_of(edits[k], edits.last()) {
            edits.len() - 1
        } else {
            k
        }
    }
}

/// `source` after all `edits`. The edits are made from the right end of the
/// text to its left end, so that each one finds its span where the source
/// text had it, whatever the others put in.
pub open spec fn rewritten(source: Seq<u8>, edits: Seq<Patch>) -> Seq<u8>
    decreases edits.len(),
    via rewritten_decreases
{
    if edits.len() == 0 {
        source
    } else {
        let k = rightmost(edits);
        rewritten(spliced(source, edits[k].text, edits[k].start, edits[k].end), edits.remove(k))
    }
}

#[via_fn]
proof fn rewritten_decreases(source: Seq<u8>, edits: Seq<Patch>) {
    if edits.len() > 0 {
        lemma_rightmost(edits);
    }
}

/// `rightmost` names an edit of the list, and none lies further right.
pub proof fn lemma_rightmost(edits: Seq<Patch>)
    requires
        edits.len() > 0,
    ensures
        0 <= rightmost(edits) < edits.len(),
        forall|j: int|
            0 <= j < edits.len() ==> not_right_of(#[trigger] edits[j], edits[rightmost(edits)]),
    decreases edits.len(),
{
    if edits.len() > 1 {
        let front = edits.drop_last();
        lemma_rightmost(front);
        let k = rightmost(front);
        assert forall|j: int| 0 <= j < edits.len() implies not_right_of(
            #[trigger] edits[j],
            edits[rightmost(edits)],
        ) by {
            if j < edits.len() - 1 {
                assert(front[j] == edits[j]);
                assert(not_right_of(front[j], front[k]));
            }
        }
    }
}

/// Among disjoint spans, every other span ends where the rightmost starts,
/// or before.
pub proof fn lemma_rest_left_of_rightmost(edits: Seq<Patch>, len: int)
    requires
        edits.len() > 0,
        all_fit(edits, len),
        disjoint(edits),
    ensures
        forall|j: int|
            0 <= j < edits.len() && j != rightmost(edits) ==> (#[trigger] edits[j]).end
                <= edits[rightmost(edits)].start,
{
    lemma_rightmost(edits);
    let k = rightmost(edits);
    assert forall|j: int| 0 <= j < edits.len() && j != k implies (#[trigger] edits[j]).end
        <= edits[k].start by {
        assert(edits[j].start <= edits[j].end && edits[k].start <= edits[k].end);
        assert(not_right_of(edits[j], edits[k]));
    }
}

/// Index of the rightmost edit.
fn find_rightmost(edits: &Vec<Edit>) -> (k: usize)
    requires
        edits@.len() > 0,
    ensures
        k == rightmost(patches(edits@)),
{
    let ghost all = patches(edits@);
    let mut k: usize = 0;
    let mut i: usize = 1;
    while i < edits.len()
        invariant
            1 <= i <= edits.len(),
            k < i,
            all == patches(edits@),
            k == rightmost(all.take(i as int)),
        decreases edits.len() - i,
    {
        proof {
            assert(all.take(i + 1).drop_last() =~= all.take(i as int));
        }
        let further = edits[k].start < edits[i].start || (edits[k].start == edits[i].start
            && edits[k].end <= edits[i].end);
        if further {
            k = i;
        }
        i += 1;
    }
    proof {
        assert(all.take(all.len() as int) =~= all);
    }
    k
}

/// The whole of `source` with every edit made, each at the offsets it has in
/// `source`. The edits may come in any order.
pub fn replace_spans(source: &[u8], edits: Vec<Edit>) -> (out: Vec<u8>)
    requires
        all_fit(patches(edits@), source@.len() as int),
        disjoint(patches(edits@)),
    ensures
        out@ == rewritten(source@, patches(edits@)),
{
    let mut out: Vec<u8> = Vec::new();
    append_bytes(&mut out, source);
    let mut rest = edits;
    while rest.len() > 0
        invariant
            all_fit(patches(rest@), out@.len() as int),
            disjoint(patches(rest@)),
            rewritten(out@, patches(rest@)) == rewritten(source@, patches(edits@)),
        decreases rest.len(),
    {
        let ghost before = patches(rest@);
        let ghost len = out@.len() as int;
        let k = find_rightmost(&rest);
        proof {
            lemma_rightmost(before);
            lemma_rest_left_of_rightmost(before, len);
            assert(before[k as int].start <= before[k as int].end <= len);
        }
        let edit = rest.remove(k);
        let next = replace_span(out.as_slice(), edit.text.as_slice(), edit.start, edit.end);
        proof {
            let after = patches(rest@);
            assert(after =~= before.remove(k as int));
            assert forall|i: int| 0 <= i < after.len() implies 0 <= (#[trigger] after[i]).start
                <= after[i].end <= next@.len() by {
                let o = if i < k { i } else { i + 1 };
                assert(after[i] == before[o]);
                assert(before[o].start <= before[o].end);
            }
            assert forall|i: int, j: int|
                0 <= i < after.len() && 0 <= j < after.len() && i != j implies (
            #[trigger] after[i]).end <= (#[trigger] after[j]).start || after[j].end
                <= after[i].start by {
                let oi = if i < k { i } else { i + 1 };
                let oj = if j < k { j } else { j + 1 };
                assert(after[i] == before[oi]);
                assert(after[j] == before[oj]);
            }
        }
        out = next;
    }
    out
}

/// Two edits that do not touch, whichever is given first, leave the text
/// before the left span, the left edit's text, the text between the spans,
/// the right edit's text, and the text after the right span.
pub proof fn lemma_rewritten_pair(source: Seq<u8>, left: Patch, right: Patch)
    requires
        0 <= left.start <= left.end <= right.start <= right.end <= source.len(),
        left.start < right.end,
    ensures
        rewritten(source, seq![left, right]) == source.subrange(0, left.start) + left.text
            + source.subrange(left.end, right.start) + right.text + source.subrange(
            right.end,
            source.len() as int,
        ),
        rewritten(source, seq![right, left]) == rewritten(source, seq![left, right]),
{
    reveal_with_fuel(rightmost, 3);
    reveal_with_fuel(rewritten, 3);
    let ab = seq![left, right];
    let ba = seq![right, left];
    let middle = spliced(source, right.text, right.start, right.end);
    assert(ab.drop_last() =~= seq![left]);
    assert(ba.drop_last() =~= seq![right]);
    assert(rightmost(ab) == 1);
    assert(rightmost(ba) == 0);
    assert(ab.remove(1) =~= seq![left]);
    assert(ba.remove(0) =~= seq![left]);
    assert(seq![left].remove(0) =~= Seq::<Patch>::empty());
    assert(rewritten(source, ab) == spliced(middle, left.text, left.start, left.end));
    assert(rewritten(source, ba) == spliced(middle, left.text, left.start, left.end));
    assert(spliced(middle, left.text, left.start, left.end) =~= source.subrange(0, left.start)
        + left.text + source.subrange(left.end, right.start) + right.text + source.subrange(
        right.end,
        source.len() as int,
    ));
}

/// Each span ends where the next one in the list starts, or before.
pub open spec fn in_order(edits: Seq<Patch>) -> bool {
    forall|i: int, j: int|
        0 <= i < j < edits.len() ==> (#[trigger] edits[i]).end <= (#[trigger] edits[j]).start
}

/// `source` from the byte at `from` on, with the edits made from left to
/// right: what `source` holds up to the first span, the first edit's text,
/// and then the same for the rest of the edits from the end of the first
/// span on. Behind the last span stands what `source` holds there.
pub open spec fn laid_out(source: Seq<u8>, edits: Seq<Patch>, from: int) -> Seq<u8>
    decreases edits.len(),
{
    if edits.len() == 0 {
        source.subrange(from, source.len() as int)
    } else {
        source.subrange(from, edits[0].start) + edits[0].text + laid_out(
            source,
            edits.drop_first(),
            edits[0].end,
        )
    }
}

/// Of edits that stand in the order of their spans, the last is the
/// rightmost.
proof fn lemma_rightmost_in_order(edits: Seq<Patch>, len: int)
    requires
        edits.len() > 0,
        all_fit(edits, len),
        in_order(edits),
    ensures
        rightmost(edits) == edits.len() - 1,
{
    if edits.len() > 1 {
        let front = edits.drop_last();
        lemma_rightmost(front);
        let k = rightmost(front);
        assert(front[k] == edits[k]);
        assert(edits[k].end <= edits[edits.len() - 1].start);
        assert(edits[k].start <= edits[k].end);
        assert(edits[edits.len() - 1].start <= edits[edits.len() - 1].end);
    }
}

/// To lay out edits over a text in which a last edit, behind all of them,
/// is made already is to lay out all the edits over the text as it was.
proof fn lemma_laid_out_last(source: Seq<u8>, front: Seq<Patch>, last: Patch, from: int)
    requires
        all_fit(front.push(last), source.len() as int),
        in_order(front.push(last)),
        0 <= from <= front.push(last)[0].start,
    ensures
        laid_out(spliced(source, last.text, last.start, last.end), front, from) == laid_out(
            source,
            front.push(last),
            from,
        ),
    decreases front.len(),
{
    let all = front.push(last);
    let changed = spliced(source, last.text, last.start, last.end);
    assert(all[front.len() as int] == last);
    assert(0 <= last.start <= last.end <= source.len());
    if front.len() == 0 {
        assert(all.drop_first() =~= Seq::<Patch>::empty());
        assert(all[0] == last);
        assert(laid_out(source, all.drop_first(), last.end) == source.subrange(
            last.end,
            source.len() as int,
        ));
        assert(laid_out(changed, front, from) =~= laid_out(source, all, from));
    } else {
        let first = front[0];
        let rest = front.drop_first();
        assert(all[0] == first);
        assert(all.drop_first() =~= rest.push(last));
        assert(0 <= first.start <= first.end);
        assert(first.end <= all[front.len() as int].start);
        assert forall|i: int| 0 <= i < rest.push(last).len() implies 0 <= (#[trigger] rest.push(
            last,
        )[i]).start <= rest.push(last)[i].end <= source.len() by {
            assert(rest.push(last)[i] == all[i + 1]);
        }
        assert forall|i: int, j: int| 0 <= i < j < rest.push(last).len() implies (
        #[trigger] rest.push(last)[i]).end <= (#[trigger] rest.push(last)[j]).start by {
            assert(rest.push(last)[i] == all[i + 1]);
            assert(rest.push(last)[j] == all[j + 1]);
        }
        assert(first.end <= rest.push(last)[0].start) by {
            assert(rest.push(last)[0] == all[1]);
        }
        lemma_laid_out_last(source, rest, last, first.end);
        assert(changed.subrange(from, first.start) =~= source.subrange(from, first.start));
    }
}

/// Edits that stand in the order of their spans leave the text laid out
/// from left to right: before each span what the source holds there, in
/// each span's place the edit's text, behind the last span what the source
/// holds there.
pub proof fn lemma_rewritten_in_order(source: Seq<u8>, edits: Seq<Patch>)
    requires
        all_fit(edits, source.len() as int),
        in_order(edits),
    ensures
        rewritten(source, edits) == laid_out(source, edits, 0),
    decreases edits.len(),
{
    if edits.len() == 0 {
        assert(source.subrange(0, source.len() as int) =~= source);
    } else {
        lemma_rightmost_in_order(edits, source.len() as int);
        let last = edits.last();
        let front = edits.drop_last();
        let changed = spliced(source, last.text, last.start, last.end);
        assert(edits.remove(edits.len() - 1) =~= front);
        assert(0 <= last.start <= last.end <= source.len());
        assert forall|i: int| 0 <= i < front.len() implies 0 <= (#[trigger] front[i]).start
            <= front[i].end <= changed.len() by {
            assert(front[i] == edits[i]);
            assert(edits[i].end <= edits[edits.len() - 1].start);
        }
        assert forall|i: int, j: int| 0 <= i < j < front.len() implies (#[trigger] front[i]).end
            <= (#[trigger] front[j]).start by {
            assert(front[i] == edits[i] && front[j] == edits[j]);
        }
        lemma_rewritten_in_order(changed, front);
        assert(front.push(last) =~= edits);
        assert(0 <= edits[0].start);
        lemma_laid_out_last(source, front, last, 0);
    }
}

} // verus!
