//! Host side of the shared-memory transport between host and guest.
//!
//! The shared region starts with five 64-bit header fields — `flag`,
//! `spin_host`, `spin_guest`, `completed`, `size` — followed by the payload
//! area. This module models the host's view of that region as an owned value
//! and proves the transport logic over it: what each operation writes, in
//! which order the header stores happen, and how payloads are packed. The
//! mapping of the model onto the actual shared bytes is the thin unverified
//! overlay around the library; the guest mutates the same fields through its
//! own mapping, so a waiting operation here is a single poll that the caller
//! repeats until the guest has moved.

use vstd::prelude::*;

verus! {

use vstd::pervasive::VecAdditionalExecFns;
use crate::bytes::words_of_bytes;
use crate::bytes::bytes_of_words;
use crate::bytes::decode_words;
use crate::bytes::encode_words;
use crate::bytes::lemma_bytes_of_words_len;

/// One store into a VMIO header field, in the order the guest could observe
/// them.
#[derive(Clone, Copy, Debug, PartialEq, Eq, Structural)]
pub enum HeaderWrite {
    Flag(u64),
    SpinHost(u64),
    SpinGuest(u64),
    Completed(u64),
    PayloadSize(u64),
}

/// The header stores `init` performs, in order: both spin latches and the
/// completion and size fields first, the ready flag strictly last.
pub open spec fn init_writes() -> Seq<HeaderWrite> {
    seq![
        HeaderWrite::SpinHost(1),
        HeaderWrite::SpinGuest(0),
        HeaderWrite::Completed(0),
        HeaderWrite::PayloadSize(0),
        HeaderWrite::Flag(1),
    ]
}

/// The host's view of the shared region: the five header fields, the payload
/// area, and the ghost log of every header store made through it.
pub struct Vmio {
    flag: u64,
    spin_host: u64,
    spin_guest: u64,
    completed: u64,
    size: u64,
    data: Vec<u8>,
    writes: Ghost<Seq<HeaderWrite>>,
}

impl Vmio {
    /// The ready flag the guest polls.
    pub closed spec fn flag(self) -> u64 {
        self.flag
    }

    /// The spin latch the host waits on; the guest clears it.
    pub closed spec fn spin_host(self) -> u64 {
        self.spin_host
    }

    /// The spin latch the guest waits on; 2 signals in-band success.
    pub closed spec fn spin_guest(self) -> u64 {
        self.spin_guest
    }

    /// The clean-completion flag, consumed at most once per session.
    pub closed spec fn completed(self) -> u64 {
        self.completed
    }

    /// The byte length of the payload.
    pub closed spec fn size(self) -> u64 {
        self.size
    }

    /// The payload area.
    pub closed spec fn data(self) -> Seq<u8> {
        self.data@
    }

    /// Every header store made so far, oldest first.
    pub closed spec fn writes(self) -> Seq<HeaderWrite> {
        self.writes@
    }

    /// The payload length never exceeds the payload area.
    pub closed spec fn wf(self) -> bool {
        self.size <= self.data@.len()
    }

    /// A fresh model of a region whose payload area holds `data_size` zero
    /// bytes.
    pub fn new(data_size: usize) -> (v: Vmio)
        ensures
            v.wf(),
            v.flag() == 0 && v.spin_host() == 0 && v.spin_guest() == 0 && v.completed() == 0
                && v.size() == 0,
            v.data().len() == data_size,
            v.writes() == Seq::<HeaderWrite>::empty(),
    {
        let mut data: Vec<u8> = Vec::new();
        let mut i: usize = 0;
        while i < data_size
            invariant
                i <= data_size,
                data@.len() == i,
            decreases data_size - i,
        {
            data.push(0);
            i = i + 1;
        }
        Vmio { flag: 0, spin_host: 0, spin_guest: 0, completed: 0, size: 0, data, writes: Ghost(
            Seq::empty(),
        ) }
    }

    /// Initializes the header for a new run: arm the host latch, clear the
    /// guest latch, the completion flag and the size, and set the ready flag
    /// as the very last header store, so the guest cannot observe a ready
    /// region with an unarmed latch.
    pub fn init(&mut self)
        ensures
            final(self).wf(),
            final(self).flag() == 1,
            final(self).spin_host() == 1,
            final(self).spin_guest() == 0,
            final(self).completed() == 0,
            final(self).size() == 0,
            final(self).data() == old(self).data(),
            final(self).writes() == old(self).writes() + init_writes(),
    {
        self.spin_host = 1;
        proof {
            self.writes@ = self.writes@.push(HeaderWrite::SpinHost(1));
        }
        self.spin_guest = 0;
        proof {
            self.writes@ = self.writes@.push(HeaderWrite::SpinGuest(0));
        }
        self.completed = 0;
        proof {
            self.writes@ = self.writes@.push(HeaderWrite::Completed(0));
        }
        self.size = 0;
        proof {
            self.writes@ = self.writes@.push(HeaderWrite::PayloadSize(0));
        }
        self.flag = 1;
        proof {
            self.writes@ = self.writes@.push(HeaderWrite::Flag(1));
            assert(self.writes@ =~= old(self).writes@ + init_writes());
        }
    }

    /// Further transport setup; this transport needs none.
    pub fn init_ipc(&mut self)
        ensures
            *final(self) == *old(self),
    {
    }

    /// One poll of the host latch: true once the guest has released the host
    /// by clearing `spin_host`. The caller spins on this until it holds.
    pub fn wait_on_host(&mut self) -> (released: bool)
        ensures
            *final(self) == *old(self),
            released == (old(self).spin_host() != 1),
    {
        self.spin_host != 1
    }

    /// Releases the guest latch.
    pub fn post_to_guest(&mut self)
        ensures
            final(self).wf() == old(self).wf(),
            final(self).spin_guest() == 0,
            final(self).flag() == old(self).flag(),
            final(self).spin_host() == old(self).spin_host(),
            final(self).completed() == old(self).completed(),
            final(self).size() == old(self).size(),
            final(self).data() == old(self).data(),
            final(self).writes() == old(self).writes().push(HeaderWrite::SpinGuest(0)),
    {
        self.spin_guest = 0;
        proof {
            self.writes@ = self.writes@.push(HeaderWrite::SpinGuest(0));
        }
    }

    /// Stages an input for the guest: writes the size field, then copies the
    /// payload bytes; the guest latch is not touched.
    pub fn prepare_blob(&mut self, input: &Vec<u8>)
        requires
            old(self).wf(),
            input@.len() <= old(self).data().len(),
        ensures
            final(self).wf(),
            final(self).size() == input@.len(),
            final(self).data().len() == old(self).data().len(),
            final(self).data().take(input@.len() as int) == input@,
            final(self).data().skip(input@.len() as int) == old(self).data().skip(
                input@.len() as int,
            ),
            final(self).flag() == old(self).flag(),
            final(self).spin_host() == old(self).spin_host(),
            final(self).spin_guest() == old(self).spin_guest(),
            final(self).completed() == old(self).completed(),
            final(self).writes() == old(self).writes().push(
                HeaderWrite::PayloadSize(input@.len() as u64),
            ),
    {
        self.size = input.len() as u64;
        proof {
            self.writes@ = self.writes@.push(HeaderWrite::PayloadSize(input@.len() as u64));
        }
        let mut i: usize = 0;
        while i < input.len()
            invariant
                i <= input@.len(),
                input@.len() <= self.data@.len(),
                self.data@.len() == old(self).data@.len(),
                forall|j: int| 0 <= j < i ==> self.data@[j] == input@[j],
                forall|j: int|
                    input@.len() <= j < self.data@.len() ==> self.data@[j] == old(self).data@[j],
                self.size == input@.len(),
                self.flag == old(self).flag,
                self.spin_host == old(self).spin_host,
                self.spin_guest == old(self).spin_guest,
                self.completed == old(self).completed,
                self.writes == old(self).writes@.push(
                    HeaderWrite::PayloadSize(input@.len() as u64),
                ),
            decreases input@.len() - i,
        {
            self.data.set(i, input[i]);
            i = i + 1;
        }
        proof {
            assert(self.data@.take(input@.len() as int) =~= input@);
            assert(self.data@.skip(input@.len() as int) =~= old(self).data@.skip(
                input@.len() as int,
            ));
        }
    }

    /// Stages an input and releases the guest: the size and payload stores
    /// happen before the guest latch store.
    pub fn send_fuzz_input(&mut self, data: &Vec<u8>, size: usize)
        requires
            old(self).wf(),
            size == data@.len(),
            size <= old(self).data().len(),
        ensures
            final(self).wf(),
            final(self).size() == size,
            final(self).data().len() == old(self).data().len(),
            final(self).data().take(size as int) == data@,
            final(self).data().skip(size as int) == old(self).data().skip(size as int),
            final(self).spin_guest() == 0,
            final(self).flag() == old(self).flag(),
            final(self).spin_host() == old(self).spin_host(),
            final(self).completed() == old(self).completed(),
            final(self).writes() == old(self).writes().push(
                HeaderWrite::PayloadSize(size as u64),
            ).push(HeaderWrite::SpinGuest(0)),
    {
        self.prepare_blob(data);
        self.post_to_guest();
    }

    /// Reads the current payload back out.
    pub fn recv_data(&self) -> (r: Vec<u8>)
        requires
            self.wf(),
        ensures
            r@ == self.data().take(self.size() as int),
    {
        let n = self.size as usize;
        proof {
            assert(self.data@.len() <= usize::MAX) by {
                assert(vstd::std_specs::vec::spec_vec_len(&self.data) == self.data@.len());
            }
            assert(n == self.size);
        }
        let mut r: Vec<u8> = Vec::new();
        let mut i: usize = 0;
        while i < n
            invariant
                i <= n,
                n == self.size,
                n <= self.data@.len(),
                r@.len() == i,
                forall|j: int| 0 <= j < i ==> r@[j] == self.data@[j],
            decreases n - i,
        {
            r.push(self.data[i]);
            i = i + 1;
        }
        proof {
            assert(r@ =~= self.data@.take(self.size as int));
        }
        r
    }

    /// Reads the payload as packed little-endian coverage samples; a tail of
    /// fewer than 8 bytes is dropped.
    pub fn get_kcov_info(&self) -> (r: Vec<u64>)
        requires
            self.wf(),
        ensures
            r@ == words_of_bytes(self.data().take(self.size() as int)),
    {
        let raw = self.recv_data();
        decode_words(&raw)
    }

    /// Packs coverage samples into the payload as little-endian words,
    /// writes the size field, and releases the guest. This is the guest's
    /// half of the protocol, modelled here so the packing round-trips
    /// against the read-out.
    pub fn send_kcov_info(&mut self, samples: &Vec<u64>)
        requires
            old(self).wf(),
            8 * samples@.len() <= old(self).data().len(),
        ensures
            final(self).wf(),
            final(self).size() == 8 * samples@.len(),
            final(self).data().len() == old(self).data().len(),
            final(self).data().take(8 * samples@.len() as int) == bytes_of_words(samples@),
            final(self).spin_guest() == 0,
            final(self).flag() == old(self).flag(),
            final(self).spin_host() == old(self).spin_host(),
            final(self).completed() == old(self).completed(),
            final(self).writes() == old(self).writes().push(
                HeaderWrite::PayloadSize((8 * samples@.len()) as u64),
            ).push(HeaderWrite::SpinGuest(0)),
    {
        proof {
            lemma_bytes_of_words_len(samples@);
        }
        let packed = encode_words(samples);
        self.prepare_blob(&packed);
        self.post_to_guest();
    }

    /// Consumes a clean completion: succeeds exactly when the guest has set
    /// the completion flag, and clears it, so a single completion is
    /// observed at most once.
    pub fn check_completion(&mut self) -> (r: bool)
        ensures
            r == (old(self).completed() == 1),
            final(self).completed() == if r {
                0u64
            } else {
                old(self).completed()
            },
            final(self).wf() == old(self).wf(),
            final(self).flag() == old(self).flag(),
            final(self).spin_host() == old(self).spin_host(),
            final(self).spin_guest() == old(self).spin_guest(),
            final(self).size() == old(self).size(),
            final(self).data() == old(self).data(),
            final(self).writes() == if r {
                old(self).writes().push(HeaderWrite::Completed(0))
            } else {
                old(self).writes()
            },
    {
        if self.completed == 1 {
            self.completed = 0;
            proof {
                self.writes@ = self.writes@.push(HeaderWrite::Completed(0));
            }
            true
        } else {
            false
        }
    }

    /// The in-band success probe of the alternate signalling scheme: the
    /// guest wrote 2 into its latch.
    pub fn check_success(&self) -> (r: bool)
        ensures
            r == (self.spin_guest() == 2),
    {
        self.spin_guest == 2
    }
}

impl Vmio {
    /// The guest's release of the host latch, as its mapping would perform
    /// it: the model of the store the host's poll is waiting for.
    pub fn guest_release_host(&mut self)
        ensures
            final(self).wf() == old(self).wf(),
            final(self).spin_host() == 0,
            final(self).flag() == old(self).flag(),
            final(self).spin_guest() == old(self).spin_guest(),
            final(self).completed() == old(self).completed(),
            final(self).size() == old(self).size(),
            final(self).data() == old(self).data(),
            final(self).writes() == old(self).writes(),
    {
        self.spin_host = 0;
    }

    /// The guest's clean-completion signal: it sets the completion flag that
    /// `check_completion` consumes.
    pub fn guest_complete(&mut self)
        ensures
            final(self).wf() == old(self).wf(),
            final(self).completed() == 1,
            final(self).flag() == old(self).flag(),
            final(self).spin_host() == old(self).spin_host(),
            final(self).spin_guest() == old(self).spin_guest(),
            final(self).size() == old(self).size(),
            final(self).data() == old(self).data(),
            final(self).writes() == old(self).writes(),
    {
        self.completed = 1;
    }

    /// The guest's in-band success signal of the alternate scheme: it writes
    /// 2 into its own latch.
    pub fn guest_signal_success(&mut self)
        ensures
            final(self).wf() == old(self).wf(),
            final(self).spin_guest() == 2,
            final(self).flag() == old(self).flag(),
            final(self).spin_host() == old(self).spin_host(),
            final(self).completed() == old(self).completed(),
            final(self).size() == old(self).size(),
            final(self).data() == old(self).data(),
            final(self).writes() == old(self).writes(),
    {
        self.spin_guest = 2;
    }
}

/// The ready flag is the last header store of `init`, and no earlier store
/// of `init` touches it.
pub proof fn lemma_init_flag_last()
    ensures
        init_writes().last() == HeaderWrite::Flag(1),
        forall|j: int| 0 <= j < init_writes().len() - 1 ==> !((#[trigger] init_writes()[j]) is Flag),
{
    assert forall|j: int|
        0 <= j < init_writes().len() - 1 implies !((#[trigger] init_writes()[j]) is Flag) by {
        if j == 0 {
            assert(init_writes()[0] == HeaderWrite::SpinHost(1));
        } else if j == 1 {
            assert(init_writes()[1] == HeaderWrite::SpinGuest(0));
        } else if j == 2 {
            assert(init_writes()[2] == HeaderWrite::Completed(0));
        } else {
            assert(init_writes()[3] == HeaderWrite::PayloadSize(0));
        }
    }
}

/// A single guest completion is consumed exactly once: a second probe right
/// after a successful one comes back false.
pub proof fn lemma_completion_consumed_once(v1: Vmio, v2: Vmio, v3: Vmio, r1: bool, r2: bool)
    requires
        r1 == (v1.completed() == 1),
        v2.completed() == if r1 {
            0u64
        } else {
            v1.completed()
        },
        r2 == (v2.completed() == 1),
    ensures
        r1 ==> !r2,
{
}

} // verus!
