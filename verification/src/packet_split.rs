//! Splitting a stream of bytes into packets.
//!
//! A packet travels as its length in decimal digits, a `|`, and then that
//! many bytes.  The splitter is fed what was received and hands out a packet
//! as soon as one is complete; reading from the connection is the caller's
//! part.

use std::collections::VecDeque;
use vstd::prelude::*;

verus! {

/// The byte `|` that ends the length of a packet.
pub const SEPARATOR: u8 = 124;

/// The byte `0`, the lowest digit.
pub const DIGIT_ZERO: u8 = 48;

/// The bytes received and not yet handed out, and the length of the packet
/// that is being received (0 while its length is not known).
pub struct PacketSplitter {
    deque: VecDeque<u8>,
    packet_length: usize,
}

/// The length read so far and the bytes left, after the digits at the front
/// of `buffer` were added to the length `read` up to and including the first
/// separator, or up to the end of the buffer if there is none.
pub open spec fn header(buffer: Seq<u8>, read: nat) -> (nat, Seq<u8>)
    decreases buffer.len(),
{
    if buffer.len() == 0 {
        (read, buffer)
    } else if buffer[0] == SEPARATOR {
        (read, buffer.skip(1))
    } else {
        header(buffer.skip(1), (read * 10 + (buffer[0] - DIGIT_ZERO)) as nat)
    }
}

/// Reading the length works out: no byte before the separator is below the
/// digit `0`, and the length never leaves the range of `usize`.
pub open spec fn header_fits(buffer: Seq<u8>, read: nat) -> bool
    decreases buffer.len(),
{
    if buffer.len() == 0 || buffer[0] == SEPARATOR {
        true
    } else {
        &&& buffer[0] >= DIGIT_ZERO
        &&& read * 10 + (buffer[0] - DIGIT_ZERO) <= usize::MAX
        &&& header_fits(buffer.skip(1), (read * 10 + (buffer[0] - DIGIT_ZERO)) as nat)
    }
}

impl PacketSplitter {
    /// The bytes received and not yet handed out.
    pub closed spec fn buffer(&self) -> Seq<u8> {
        self.deque@
    }

    /// The length of the packet that is being received, 0 while it is not
    /// known.
    pub closed spec fn length(&self) -> nat {
        self.packet_length as nat
    }

    /// The length and the bytes at hand once `received` has arrived: the
    /// length is read off the front unless it was known already.
    pub open spec fn arrived(&self, received: Seq<u8>) -> (nat, Seq<u8>) {
        if self.length() == 0 {
            header(self.buffer() + received, 0)
        } else {
            (self.length(), self.buffer() + received)
        }
    }

    /// Whether `received` can be taken in: if a length has to be read, it
    /// can be.
    pub open spec fn spec_accepts(&self, received: Seq<u8>) -> bool {
        self.length() == 0 ==> header_fits(self.buffer() + received, 0)
    }

    /// A splitter that has received nothing.
    pub fn new() -> (splitter: PacketSplitter)
        ensures
            splitter.buffer() == Seq::<u8>::empty(),
            splitter.length() == 0,
    {
        PacketSplitter { deque: VecDeque::new(), packet_length: 0 }
    }

    /// Whether `received` can be taken in.
    pub fn accepts(&self, received: &[u8]) -> (ok: bool)
        ensures
            ok == self.spec_accepts(received@),
    {
        if self.packet_length != 0 {
            return true;
        }
        let ghost joined = self.deque@ + received@;
        let held = self.deque.len();
        let total: u128 = held as u128 + received.len() as u128;
        let mut read: u128 = 0;
        let mut i: u128 = 0;
        proof {
            assert(joined.skip(0) =~= joined);
        }
        while i < total
            invariant
                self.packet_length == 0,
                joined == self.deque@ + received@,
                held == self.deque@.len(),
                total == held + received@.len(),
                total == joined.len(),
                0 <= i <= total,
                read <= usize::MAX,
                header_fits(joined, 0) == header_fits(joined.skip(i as int), read as nat),
            decreases total - i,
        {
            let b = if i < held as u128 {
                self.deque[i as usize]
            } else {
                received[(i - held as u128) as usize]
            };
            proof {
                let tail = joined.skip(i as int);
                assert(tail[0] == b);
                assert(tail.skip(1) =~= joined.skip(i + 1));
                assert(header_fits(tail, read as nat) == (b == SEPARATOR || (b >= DIGIT_ZERO
                    && read * 10 + (b - DIGIT_ZERO) <= usize::MAX && header_fits(
                    tail.skip(1),
                    (read * 10 + (b - DIGIT_ZERO)) as nat,
                ))));
            }
            if b == SEPARATOR {
                return true;
            }
            if b < DIGIT_ZERO {
                return false;
            }
            let next: u128 = read * 10 + (b - DIGIT_ZERO) as u128;
            if next > usize::MAX as u128 {
                return false;
            }
            read = next;
            i += 1;
        }
        proof {
            assert(joined.skip(i as int).len() == 0);
        }
        true
    }

    /// Takes in what was received and hands out a packet if one is complete.
    ///
    /// If no length is known, it is read off the front of the bytes at hand.
    /// Then, if at least that many bytes are at hand, they are the packet,
    /// and the next length is still to be read; else the bytes wait.
    pub fn receive(&mut self, received: &[u8]) -> (packet: Option<Vec<u8>>)
        requires
            old(self).spec_accepts(received@),
        ensures
            ({
                let (length, rest) = old(self).arrived(received@);
                if rest.len() < length {
                    &&& packet is None
                    &&& final(self).buffer() == rest
                    &&& final(self).length() == length
                } else {
                    &&& packet matches Some(bytes)
                    &&& bytes@ == rest.take(length as int)
                    &&& final(self).buffer() == rest.skip(length as int)
                    &&& final(self).length() == 0
                }
            }),
    {
        let ghost before = self.deque@;
        let mut i: usize = 0;
        while i < received.len()
            invariant
                0 <= i <= received@.len(),
                self.packet_length == old(self).packet_length,
                self.deque@ == before + received@.take(i as int),
            decreases received@.len() - i,
        {
            self.deque.push_back(received[i]);
            i += 1;
            proof {
                assert(received@.take(i as int) =~= received@.take(i - 1).push(received@[i - 1]));
                assert(self.deque@ =~= before + received@.take(i as int));
            }
        }
        proof {
            assert(received@.take(i as int) =~= received@);
        }
        let ghost joined = before + received@;
        if self.packet_length == 0 {
            proof {
                assert(self.deque@ == joined);
            }
            loop
                invariant_except_break
                    header_fits(self.deque@, self.packet_length as nat),
                    header(self.deque@, self.packet_length as nat) == header(joined, 0),
                ensures
                    (self.packet_length as nat, self.deque@) == header(joined, 0),
                decreases self.deque@.len(),
            {
                let ghost current = self.deque@;
                let ghost read = self.packet_length as nat;
                match self.deque.pop_front() {
                    Some(b) => {
                        proof {
                            assert(self.deque@ =~= current.skip(1));
                            assert(current[0] == b);
                            assert(header(current, read) == (if b == SEPARATOR {
                                (read, current.skip(1))
                            } else {
                                header(current.skip(1), (read * 10 + (b - DIGIT_ZERO)) as nat)
                            }));
                            assert(header_fits(current, read) == (b == SEPARATOR || (b
                                >= DIGIT_ZERO && read * 10 + (b - DIGIT_ZERO) <= usize::MAX
                                && header_fits(
                                current.skip(1),
                                (read * 10 + (b - DIGIT_ZERO)) as nat,
                            ))));
                        }
                        if b == SEPARATOR {
                            break ;
                        }
                        self.packet_length = self.packet_length * 10 + (b - DIGIT_ZERO) as usize;
                    },
                    None => {
                        proof {
                            assert(header(current, read) == (read, current));
                        }
                        break ;
                    },
                }
            }
        }
        proof {
            assert((self.packet_length as nat, self.deque@) == old(self).arrived(received@));
        }
        if self.deque.len() < self.packet_length {
            None
        } else {
            let ghost rest = self.deque@;
            let ghost length = self.packet_length;
            let mut bytes: Vec<u8> = Vec::new();
            let mut n: usize = 0;
            while n < self.packet_length
                invariant
                    0 <= n <= self.packet_length,
                    self.packet_length == length,
                    self.packet_length <= rest.len(),
                    bytes@ == rest.take(n as int),
                    self.deque@ == rest.skip(n as int),
                decreases self.packet_length - n,
            {
                let ghost current = self.deque@;
                let b = self.deque.pop_front().unwrap();
                bytes.push(b);
                n += 1;
                proof {
                    assert(self.deque@ =~= rest.skip(n as int));
                    assert(bytes@ =~= rest.take(n as int));
                }
            }
            self.packet_length = 0;
            Some(bytes)
        }
    }
}

} // verus!
