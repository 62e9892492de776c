//! The queues and channels between the threads.
//!
//! Each end is known by what has been tried at it and how each attempt went, which is all
//! that one thread can tell: what the thread at the other end does, and when, is open.

use crate::float::Single;
use crate::number::Num;
use crate::plot::FormantFrame;
use crossbeam::channel::{Receiver, Sender};
use heapless::spsc::{Consumer, Producer};
use vstd::prelude::*;

verus! {

/// The receiving end of a `crossbeam` channel.
#[verifier::external_type_specification]
#[verifier::external_body]
#[verifier::reject_recursive_types(T)]
pub struct ExReceiver<T>(Receiver<T>);

/// The sending end of a `crossbeam` channel.
#[verifier::external_type_specification]
#[verifier::external_body]
#[verifier::reject_recursive_types(T)]
pub struct ExSender<T>(Sender<T>);

/// The end of a `heapless` queue at which items go in.
#[verifier::external_type_specification]
#[verifier::external_body]
#[verifier::reject_recursive_types(T)]
pub struct ExProducer<'a, T>(Producer<'a, T>);

/// The end of a `heapless` queue at which items come out.
#[verifier::external_type_specification]
#[verifier::external_body]
#[verifier::reject_recursive_types(T)]
pub struct ExConsumer<'a, T>(Consumer<'a, T>);

/// What came out of a channel at this end, attempt by attempt: a frame, or nothing.
pub uninterp spec fn received(rx: Receiver<FormantFrame>) -> Seq<Option<Seq<Num>>>;

/// The frames that were to go into a channel at this end, attempt by attempt, each with
/// whether the channel accepted it.
pub uninterp spec fn sent(tx: Sender<FormantFrame>) -> Seq<(Seq<Num>, bool)>;

/// The samples that were to go into a queue at this end, attempt by attempt, each with
/// whether the queue accepted it.
pub uninterp spec fn enqueued(tx: Producer<'static, Single>) -> Seq<(Num, bool)>;

/// What came out of a queue at this end, attempt by attempt: a sample, or nothing.
pub uninterp spec fn dequeued(rx: Consumer<'static, Single>) -> Seq<Option<Num>>;

/// The attempts in which each of some items came out.
pub open spec fn each_taken<A>(items: Seq<A>) -> Seq<Option<A>> {
    items.map_values(|item: A| Some(item))
}

/// The attempts in which each of some items was accepted.
pub open spec fn each_accepted<A>(items: Seq<A>) -> Seq<(A, bool)> {
    items.map_values(|item: A| (item, true))
}

/// One more item that comes out is one more attempt.
pub(crate) proof fn lemma_one_more_taken<A>(items: Seq<A>, item: A)
    ensures
        each_taken(items.push(item)) == each_taken(items).push(Some(item)),
{
    assert(each_taken(items.push(item)) =~= each_taken(items).push(Some(item)));
}

/// `crossbeam::channel::Receiver::try_recv`: takes a frame out of the channel, without
/// blocking; nothing comes out where none is waiting. Whether one is, and which, rests
/// with the sending thread.
#[verifier::external_body]
pub(crate) fn receive(rx: &mut Receiver<FormantFrame>) -> (r: Option<FormantFrame>)
    ensures
        received(*final(rx)) == received(*old(rx)).push(
            match r {
                Some(frame) => Some(frame@),
                None => None,
            },
        ),
{
    match rx.try_recv() {
        Ok(frame) => Some(frame),
        Err(_) => None,
    }
}

/// `crossbeam::channel::Sender::try_send`: puts a frame into the channel, without blocking;
/// it is dropped where there is no room, or nobody to receive it. Whether that is so rests
/// with the receiving thread.
#[verifier::external_body]
pub(crate) fn send(tx: &mut Sender<FormantFrame>, frame: FormantFrame) -> (r: bool)
    ensures
        sent(*final(tx)) == sent(*old(tx)).push((frame@, r)),
{
    match tx.try_send(frame) {
        Ok(()) => true,
        Err(_) => false,
    }
}

/// `heapless::spsc::Producer::enqueue`: puts a sample at the end of the queue, or refuses
/// it where the queue is full. Whether it is rests with the consuming thread.
#[verifier::external_body]
pub(crate) fn enqueue(tx: &mut Producer<'static, Single>, sample: Single) -> (r: bool)
    ensures
        enqueued(*final(tx)) == enqueued(*old(tx)).push((sample@, r)),
{
    match tx.enqueue(sample) {
        Ok(()) => true,
        Err(_) => false,
    }
}

/// `heapless::spsc::Consumer::dequeue`: takes the sample at the front of the queue, if the
/// queue is not empty. Whether it is, and what the sample is, rests with the producing
/// thread.
#[verifier::external_body]
pub(crate) fn dequeue(rx: &mut Consumer<'static, Single>) -> (r: Option<Single>)
    ensures
        dequeued(*final(rx)) == dequeued(*old(rx)).push(
            match r {
                Some(sample) => Some(sample@),
                None => None,
            },
        ),
{
    rx.dequeue()
}

} // verus!
