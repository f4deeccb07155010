//! Cutting text into pieces.

use crate::bytes::copy_range;
use vstd::prelude::*;

verus! {

/// What text is cut at.
#[derive(Clone, Copy, Debug, PartialEq, Eq, Structural)]
pub enum Cut {
    /// The separators of a path, `\\` and `/`.
    Separators,
    /// Blanks: space, tab, carriage return, line feed.
    Blanks,
    /// Semicolons.
    Semicolons,
}

impl Cut {
    /// The text is cut at `b`.
    pub open spec fn spec_at(self, b: u8) -> bool {
        match self {
            Cut::Separators => b == 0x5C || b == 0x2F,
            Cut::Blanks => b == 0x20 || b == 0x09 || b == 0x0D || b == 0x0A,
            Cut::Semicolons => b == 0x3B,
        }
    }

    /// Whether the text is cut at `b`.
    #[verifier::when_used_as_spec(spec_at)]
    pub fn at(self, b: u8) -> (res: bool)
        ensures
            res == self.at(b),
    {
        match self {
            Cut::Separators => b == 0x5C || b == 0x2F,
            Cut::Blanks => b == 0x20 || b == 0x09 || b == 0x0D || b == 0x0A,
            Cut::Semicolons => b == 0x3B,
        }
    }
}

/// The text cut up: the pieces complete so far, and the one being read.
pub open spec fn cut_up(cut: Cut, text: Seq<u8>) -> (Seq<Seq<u8>>, Seq<u8>)
    decreases text.len(),
{
    if text.len() == 0 {
        (seq![], seq![])
    } else {
        let (done, open) = cut_up(cut, text.drop_last());
        if !cut.at(text.last()) {
            (done, open.push(text.last()))
        } else if open.len() > 0 {
            (done.push(open), seq![])
        } else {
            (done, open)
        }
    }
}

/// The pieces of a text, empty ones left out.
pub open spec fn pieces(cut: Cut, text: Seq<u8>) -> Seq<Seq<u8>> {
    let (done, open) = cut_up(cut, text);
    if open.len() > 0 {
        done.push(open)
    } else {
        done
    }
}

/// The contents of a list of texts.
pub open spec fn texts(list: Seq<Vec<u8>>) -> Seq<Seq<u8>> {
    list.map_values(|t: Vec<u8>| t@)
}

/// Cuts a text into its pieces.
pub fn split(cut: Cut, text: &[u8]) -> (list: Vec<Vec<u8>>)
    ensures
        texts(list@) == pieces(cut, text@),
{
    let mut list: Vec<Vec<u8>> = Vec::new();
    let mut start: usize = 0;
    let mut i: usize = 0;
    proof {
        assert(text@.take(0) =~= Seq::<u8>::empty());
        assert(text@.subrange(0, 0) =~= Seq::<u8>::empty());
        assert(texts(list@) =~= Seq::<Seq<u8>>::empty());
    }
    while i < text.len()
        invariant
            start <= i <= text@.len(),
            cut_up(cut, text@.take(i as int)) == (
                texts(list@),
                text@.subrange(start as int, i as int),
            ),
        decreases text@.len() - i,
    {
        let ghost was = list@;
        proof {
            assert(text@.take(i + 1).drop_last() =~= text@.take(i as int));
            assert(text@.take(i + 1).last() == text@[i as int]);
        }
        if cut.at(text[i]) {
            if i > start {
                list.push(copy_range(text, start, i));
                assert(texts(list@) =~= texts(was).push(
                    text@.subrange(start as int, i as int),
                ));
            }
            start = i + 1;
            assert(text@.subrange(start as int, i + 1) =~= Seq::<u8>::empty());
        } else {
            assert(text@.subrange(start as int, i + 1) =~= text@.subrange(
                start as int,
                i as int,
            ).push(text@[i as int]));
        }
        i += 1;
    }
    assert(text@.take(i as int) =~= text@);
    let ghost was = list@;
    if start < text.len() {
        list.push(copy_range(text, start, text.len()));
        assert(texts(list@) =~= texts(was).push(text@.subrange(start as int, i as int)));
    }
    list
}

/// Which bytes text is cut at: paths at `\\` and `/`, queries at space, tab,
/// carriage return and line feed, lists of extensions at `;`.
pub proof fn law_cut_bytes(b: u8)
    ensures
        Cut::Separators.at(b) <==> b == 0x5C || b == 0x2F,
        Cut::Blanks.at(b) <==> b == 0x20 || b == 0x09 || b == 0x0D || b == 0x0A,
        Cut::Semicolons.at(b) <==> b == 0x3B,
{
}

/// What cutting goes on with behind a byte that text is cut at.
proof fn lemma_cut_behind(cut: Cut, front: Seq<u8>, b: u8, back: Seq<u8>)
    requires
        cut.at(b),
    ensures
        cut_up(cut, front + seq![b] + back).0 == pieces(cut, front) + cut_up(cut, back).0,
        cut_up(cut, front + seq![b] + back).1 == cut_up(cut, back).1,
    decreases back.len(),
{
    let text = front + seq![b] + back;
    if back.len() == 0 {
        assert(text.drop_last() =~= front);
        assert(text.last() == b);
        assert(cut_up(cut, text).0 =~= pieces(cut, front) + cut_up(cut, back).0);
        assert(cut_up(cut, text).1 =~= cut_up(cut, back).1);
    } else {
        lemma_cut_behind(cut, front, b, back.drop_last());
        assert(text.drop_last() =~= front + seq![b] + back.drop_last());
        assert(text.last() == back.last());
        let done = cut_up(cut, back.drop_last()).0;
        let open = cut_up(cut, back.drop_last()).1;
        if cut.at(back.last()) && open.len() > 0 {
            assert((pieces(cut, front) + done).push(open) =~= pieces(cut, front) + done.push(open));
        }
    }
}

/// Text is cut at every byte to cut at: what stands on either side of one is cut
/// on its own, and the pieces of the one side come before those of the other.
pub proof fn law_cut_apart(cut: Cut, front: Seq<u8>, b: u8, back: Seq<u8>)
    requires
        cut.at(b),
    ensures
        pieces(cut, front + seq![b] + back) == pieces(cut, front) + pieces(cut, back),
{
    lemma_cut_behind(cut, front, b, back);
    let done = cut_up(cut, back).0;
    let open = cut_up(cut, back).1;
    if open.len() > 0 {
        assert((pieces(cut, front) + done).push(open) =~= pieces(cut, front) + done.push(open));
    }
}

/// Text is cut nowhere else: without a byte to cut at it is one piece, or none
/// where it is empty.
pub proof fn law_whole_piece(cut: Cut, text: Seq<u8>)
    requires
        forall|k: int| 0 <= k < text.len() ==> !cut.at(#[trigger] text[k]),
    ensures
        pieces(cut, text) == if text.len() == 0 {
            Seq::<Seq<u8>>::empty()
        } else {
            seq![text]
        },
{
    lemma_uncut(cut, text);
    if text.len() > 0 {
        assert(Seq::<Seq<u8>>::empty().push(text) =~= seq![text]);
    }
}

proof fn lemma_uncut(cut: Cut, text: Seq<u8>)
    requires
        forall|k: int| 0 <= k < text.len() ==> !cut.at(#[trigger] text[k]),
    ensures
        cut_up(cut, text) == (Seq::<Seq<u8>>::empty(), text),
    decreases text.len(),
{
    if text.len() == 0 {
        assert(text =~= Seq::<u8>::empty());
    } else {
        let init = text.drop_last();
        assert forall|k: int| 0 <= k < init.len() implies !cut.at(#[trigger] init[k]) by {
            assert(init[k] == text[k]);
        }
        lemma_uncut(cut, init);
        assert(!cut.at(text[text.len() - 1]));
        assert(init.push(text.last()) =~= text);
    }
}

} // verus!
