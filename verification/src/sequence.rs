//! Sequences of nested messages.

use vstd::prelude::*;
use vstd::slice::slice_subrange;
use crate::decoder::delimiter;
use crate::error::Error;
use crate::header::CODE_MESSAGE;
use crate::message::Element;
use crate::vint64;
use crate::vint64::lemma_vint_len;
use crate::wire::{
    delimited, elements_bytes, parse_elements, parse_sequence, preceded,
    sequence_body,
};

verus! {

broadcast use vstd::slice::group_slice_axioms;

/// What the slices hold, in order.
pub open spec fn views(slices: Seq<&[u8]>) -> Seq<Seq<u8>> {
    slices.map_values(|s: &[u8]| s@)
}

/// What the vectors hold, in order.
pub open spec fn bodies(elements: Seq<Vec<u8>>) -> Seq<Seq<u8>> {
    elements.map_values(|e: Vec<u8>| e@)
}

/// One more element adds its length-delimited bytes at the end.
pub proof fn lemma_elements_bytes_push(elements: Seq<Seq<u8>>, next: Seq<u8>)
    ensures
        elements_bytes(elements.push(next)) == elements_bytes(elements) + delimited(next),
{
    assert(elements.push(next).drop_last() =~= elements);
}

/// The first elements of a sequence take no more bytes than all of them.
pub proof fn lemma_elements_bytes_grows(elements: Seq<Seq<u8>>, count: nat)
    requires
        count <= elements.len(),
    ensures
        elements_bytes(elements.take(count as int)).len() <= elements_bytes(elements).len(),
    decreases elements.len() - count,
{
    if count < elements.len() {
        lemma_elements_bytes_grows(elements, count + 1);
        assert(elements.take(count as int + 1) =~= elements.take(count as int).push(
            elements[count as int],
        ));
        lemma_elements_bytes_push(elements.take(count as int), elements[count as int]);
    } else {
        assert(elements.take(count as int) =~= elements);
    }
}

/// Number of bytes that a sequence of these elements holds behind its
/// length, or nothing where that is more than a `usize` can hold.
pub fn body_len(elements: &[Vec<u8>]) -> (r: Option<usize>)
    ensures
        match r {
            Some(len) => len == sequence_body(bodies(elements@)).len(),
            None => sequence_body(bodies(elements@)).len() > usize::MAX,
        },
{
    let ghost all = bodies(elements@);
    let mut total: usize = 1;
    let mut i: usize = 0;
    proof {
        assert(all.take(0) =~= Seq::<Seq<u8>>::empty());
    }
    while i < elements.len()
        invariant
            i <= elements.len(),
            all == bodies(elements@),
            total == 1 + elements_bytes(all.take(i as int)).len(),
        decreases elements.len() - i,
    {
        let count: usize = elements[i].len();
        let delimiter_len: usize = vint64::encoded_len(count as u64);
        proof {
            assert(all.take(i + 1) =~= all.take(i as int).push(elements@[i as int]@));
            lemma_elements_bytes_push(all.take(i as int), elements@[i as int]@);
            lemma_vint_len(count as u64);
            lemma_elements_bytes_grows(all, (i + 1) as nat);
        }
        if count > usize::MAX - total || usize::MAX - total - count < delimiter_len {
            return None;
        }
        total = total + delimiter_len + count;
        i = i + 1;
    }
    proof {
        assert(all.take(i as int) =~= all);
    }
    Some(total)
}

/// Splits what a sequence field holds behind its length into its elements.
#[verifier::rlimit(50)]
pub fn split<'a>(body: &'a [u8]) -> (r: Result<Vec<&'a [u8]>, Error>)
    ensures
        match parse_sequence(body@) {
            Ok(elements) => r matches Ok(found) && views(found@) == elements,
            Err(e) => r == Err::<Vec<&'a [u8]>, Error>(e),
        },
{
    if body.len() == 0 {
        return Err(Error::TruncatedInput { element: Element::SequenceHeader });
    }
    if body[0] != CODE_MESSAGE {
        return Err(Error::InvalidEncoding { element: Element::SequenceHeader });
    }
    let mut found: Vec<&'a [u8]> = Vec::new();
    let mut at: usize = 1;
    proof {
        assert(views(found@) =~= Seq::<Seq<u8>>::empty());
        assert(preceded(views(found@), parse_elements(body@.skip(1))) == parse_elements(
            body@.skip(1),
        )) by {
            let all = parse_elements(body@.skip(1));
            if all is Ok {
                assert(Seq::<Seq<u8>>::empty() + all->Ok_0 =~= all->Ok_0);
            }
        }
    }
    while at < body.len()
        invariant
            1 <= at <= body.len(),
            body@[0] == CODE_MESSAGE,
            preceded(views(found@), parse_elements(body@.skip(at as int))) == parse_elements(
                body@.skip(1),
            ),
        decreases body.len() - at,
    {
        let ghost here = body@.skip(at as int);
        let ghost so_far = views(found@);
        let rest = slice_subrange(body, at, body.len());
        assert(rest@ == here);
        match delimiter(rest) {
            Err(e) => {
                assert(parse_elements(here) == Err::<Seq<Seq<u8>>, Error>(e));
                return Err(e);
            },
            Ok((taken, len)) => {
                let element = slice_subrange(rest, taken, taken + len);
                found.push(element);
                at = at + taken + len;
                proof {
                    let next = parse_elements(here.skip((taken + len) as int));
                    assert(here.skip((taken + len) as int) =~= body@.skip(at as int));
                    assert(views(found@) =~= so_far.push(element@));
                    if next is Ok {
                        assert(so_far.push(element@) + next->Ok_0 =~= so_far + (seq![element@]
                            + next->Ok_0));
                    }
                }
            },
        }
    }
    proof {
        assert(views(found@) + Seq::<Seq<u8>>::empty() =~= views(found@));
    }
    Ok(found)
}

} // verus!
