//! The framing engine: a buffer with a read cursor and at most one open
//! nested scope, which produces and consumes delimited, checksummed records.

use vstd::prelude::*;
use vstd::utf8::{decode_utf8, encode_utf8, valid_utf8};
use crate::codec::{
    be_bytes_u128, be_bytes_u32, be_value, checksum, string_from_utf8, u128_to_slice,
    u128_to_u32slice, u32_to_slice, words_from,
};
use crate::error::DbError;

verus! {

/// The second byte of the start marker; the first is zero.
pub const STX: u8 = 0x02;

/// The end marker.
pub const ETX: u8 = 0x03;

/// Whether a nested scope is opened to read or to write.
#[derive(Clone, Copy, Debug, PartialEq, Eq, Structural)]
pub enum Mode {
    /// The scope sees the unread bytes of its parent.
    Read,
    /// The scope starts empty.
    Write,
}

/// A buffer with a read cursor and its nested scopes.
pub struct BinaryManager {
    /// The bytes held by this scope.
    pub buf: Vec<u8>,
    /// The position of the next byte to read.
    pub index: usize,
    /// The nested scopes; the first one is the open scope.
    pub child: Vec<BinaryManager>,
}

/// The two bytes that open a record.
pub open spec fn start_marker() -> Seq<u8> {
    seq![0x00u8, STX]
}

/// The bytes of a scope that is written, without the two bytes of the
/// start marker that it begins with.
pub open spec fn written_body(bytes: Seq<u8>) -> Seq<u8> {
    if bytes.len() >= 2 {
        bytes.skip(2)
    } else {
        Seq::<u8>::empty()
    }
}

/// The bytes of a scope after it was closed: the end marker and the
/// checksum are added. The checksum is that of the bytes between the
/// markers; the markers themselves do not count.
pub open spec fn closed_bytes(bytes: Seq<u8>) -> Seq<u8> {
    bytes.push(ETX).push(checksum(written_body(bytes)))
}

/// The bytes of a scope that is read, between its first byte, which is of
/// the start marker, and the end marker, which is the last byte before
/// position `i`.
pub open spec fn read_body(s: Seq<u8>, i: int) -> Seq<u8> {
    if 2 <= i <= s.len() {
        s.subrange(1, i - 1)
    } else {
        Seq::<u8>::empty()
    }
}

/// A text as it is stored: its length in bytes, then its UTF-8 bytes.
pub open spec fn str_bytes(s: Seq<char>) -> Seq<u8> {
    be_bytes_u128(encode_utf8(s).len() as u128) + encode_utf8(s)
}

/// The first position at or after `i` that holds a start or an end marker,
/// or the length of `s` if there is none.
pub open spec fn scan(s: Seq<u8>, i: int) -> int
    decreases s.len() - i,
{
    if i < 0 || i >= s.len() {
        s.len() as int
    } else if s[i] == ETX || s[i] == STX {
        i
    } else {
        scan(s, i + 1)
    }
}

/// Where `scan` stops: not before `i`, not beyond the end, and on a marker
/// unless it is the end.
pub proof fn lemma_scan_bounds(s: Seq<u8>, i: int)
    requires
        0 <= i <= s.len(),
    ensures
        i <= scan(s, i) <= s.len(),
        scan(s, i) < s.len() ==> s[scan(s, i)] == ETX || s[scan(s, i)] == STX,
        forall|j: int| i <= j < scan(s, i) ==> s[j] != ETX && s[j] != STX,
    decreases s.len() - i,
{
    if i < s.len() && s[i] != ETX && s[i] != STX {
        lemma_scan_bounds(s, i + 1);
    }
}

/// The 32-bit value stored in the four bytes at `i`, if they are there.
pub open spec fn u32_at(s: Seq<u8>, i: int) -> Option<u32> {
    if 0 <= i && i + 4 <= s.len() {
        Some(be_value(s.subrange(i, i + 4)) as u32)
    } else {
        None
    }
}

/// The 128-bit value stored in the sixteen bytes at `i`, if they are there.
pub open spec fn u128_at(s: Seq<u8>, i: int) -> Option<u128> {
    if 0 <= i && i + 16 <= s.len() {
        Some(be_value(s.subrange(i, i + 16)))
    } else {
        None
    }
}

/// The bytes of the length-prefixed field at `i`, if the length and as many
/// bytes as it announces are there.
pub open spec fn field_at(s: Seq<u8>, i: int) -> Option<Seq<u8>> {
    match u128_at(s, i) {
        Some(n) => if n <= s.len() - (i + 16) {
            Some(s.subrange(i + 16, i + 16 + n))
        } else {
            None
        },
        None => None,
    }
}

impl BinaryManager {
    /// The cursor lies within the buffer, here and in every nested scope.
    pub open spec fn wf(&self) -> bool
        decreases self,
    {
        &&& self.index <= self.buf@.len()
        &&& forall|i: int|
            0 <= i < self.child@.len() ==> (#[trigger] self.child@[i]).wf()
    }

    /// An empty buffer with the cursor at its start and no nested scope.
    pub fn new() -> (b: BinaryManager)
        ensures
            b.buf@.len() == 0,
            b.index == 0,
            b.child@.len() == 0,
            b.wf(),
    {
        BinaryManager { buf: Vec::new(), index: 0, child: Vec::new() }
    }

    /// Opens a nested scope in place of any that was there. To read, the
    /// scope holds the unread bytes of this one; to write, it is empty.
    pub fn create_child(&mut self, mode: Mode)
        requires
            old(self).wf(),
        ensures
            final(self).buf == old(self).buf,
            final(self).index == old(self).index,
            final(self).child@.len() == 1,
            final(self).child@[0].buf@ == (match mode {
                Mode::Read => old(self).buf@.skip(old(self).index as int),
                Mode::Write => Seq::<u8>::empty(),
            }),
            final(self).child@[0].index == 0,
            final(self).child@[0].child@.len() == 0,
            final(self).wf(),
    {
        let buf: Vec<u8> = match mode {
            Mode::Read => {
                let rest = vstd::slice::slice_subrange(
                    self.buf.as_slice(),
                    self.index,
                    self.buf.len(),
                );
                let v = vstd::slice::slice_to_vec(rest);
                assert(v@ =~= self.buf@.skip(self.index as int));
                v
            },
            Mode::Write => Vec::new(),
        };
        let child = BinaryManager { buf, index: 0, child: Vec::new() };
        assert(child.wf());
        let mut scopes: Vec<BinaryManager> = Vec::new();
        scopes.push(child);
        self.child = scopes;
    }

    /// The open nested scope, or `MissingChild` if there is none.
    pub fn get_child(&mut self) -> (r: Result<&mut BinaryManager, DbError>)
        ensures
            old(self).child@.len() == 0 ==> r is Err && r->Err_0 == DbError::MissingChild
                && *final(self) == *old(self),
            old(self).child@.len() > 0 ==> r is Ok && *r->Ok_0 == old(self).child@[0]
                && final(self).buf == old(self).buf && final(self).index == old(self).index
                && final(self).child@ == old(self).child@.update(0, *final(r->Ok_0)),
    {
        if self.child.len() == 0 {
            Err(DbError::MissingChild)
        } else {
            Ok(&mut self.child[0])
        }
    }

    /// Closes the open nested scope: its bytes, the end marker and the
    /// checksum are appended to this buffer, and the nested scopes are dropped.
    pub fn end_child_and_add_data(&mut self) -> (r: Result<(), DbError>)
        requires
            old(self).wf(),
        ensures
            old(self).child@.len() == 0 ==> r == Err::<(), DbError>(DbError::MissingChild)
                && *final(self) == *old(self),
            old(self).child@.len() > 0 ==> r is Ok && final(self).buf@ == old(self).buf@
                + closed_bytes(old(self).child@[0].buf@) && final(self).index == old(self).index
                && final(self).child@.len() == 0,
            final(self).wf(),
    {
        if self.child.len() == 0 {
            return Err(DbError::MissingChild);
        }
        let mut scopes: Vec<BinaryManager> = Vec::new();
        core::mem::swap(&mut self.child, &mut scopes);
        let mut scope = scopes.swap_remove(0);
        let end = scope.add_end_data();
        match end {
            Ok(mut bytes) => {
                self.buf.append(&mut bytes);
                Ok(())
            },
            Err(e) => Err(e),
        }
    }

    /// Appends a 32-bit value as four bytes, most significant first.
    pub fn add_u32(&mut self, data: u32) -> (r: Result<(), DbError>)
        ensures
            r is Ok,
            final(self).buf@ == old(self).buf@ + be_bytes_u32(data),
            final(self).index == old(self).index,
            final(self).child == old(self).child,
    {
        let mut vec: Vec<u8> = Vec::new();
        let _ = u32_to_slice(data, &mut vec, 24);
        self.buf.append(&mut vec);
        Ok(())
    }

    /// Appends one byte.
    pub fn add_u8(&mut self, data: u8)
        ensures
            final(self).buf@ == old(self).buf@.push(data),
            final(self).index == old(self).index,
            final(self).child == old(self).child,
    {
        self.buf.push(data);
    }

    /// Appends a flag as one byte: 1 for true, 0 for false.
    pub fn add_bool(&mut self, data: bool)
        ensures
            final(self).buf@ == old(self).buf@.push(if data { 0x01u8 } else { 0x00u8 }),
            final(self).index == old(self).index,
            final(self).child == old(self).child,
    {
        if data {
            self.buf.push(0x01)
        } else {
            self.buf.push(0x00)
        }
    }

    /// Appends a text: its length in bytes as sixteen bytes, then its UTF-8 bytes.
    pub fn add_str(&mut self, data: &String) -> (r: Result<(), DbError>)
        ensures
            r is Ok,
            final(self).buf@ == old(self).buf@ + str_bytes(data@),
            final(self).index == old(self).index,
            final(self).child == old(self).child,
    {
        let bytes = data.as_str().as_bytes();
        let _ = self.add_usize(bytes.len());
        self.buf.extend_from_slice(bytes);
        assert(self.buf@ =~= old(self).buf@ + str_bytes(data@));
        Ok(())
    }

    /// Appends a length or count as sixteen bytes, most significant first.
    pub fn add_usize(&mut self, data: usize) -> (r: Result<(), DbError>)
        ensures
            r is Ok,
            final(self).buf@ == old(self).buf@ + be_bytes_u128(data as u128),
            final(self).index == old(self).index,
            final(self).child == old(self).child,
    {
        let mut vec: Vec<u8> = Vec::new();
        let _ = u128_to_slice(data as u128, &mut vec, 120);
        self.buf.append(&mut vec);
        Ok(())
    }

    /// Appends the start marker.
    pub fn add_start_data(&mut self)
        ensures
            final(self).buf@ == old(self).buf@ + start_marker(),
            final(self).index == old(self).index,
            final(self).child == old(self).child,
    {
        self.buf.push(0x00);
        self.buf.push(STX);
        assert(self.buf@ =~= old(self).buf@ + start_marker());
    }

    /// Appends the end marker and the checksum of the bytes behind the start
    /// marker, and returns a copy of the whole buffer.
    pub fn add_end_data(&mut self) -> (r: Result<Vec<u8>, DbError>)
        ensures
            r is Ok,
            final(self).buf@ == closed_bytes(old(self).buf@),
            r->Ok_0@ == final(self).buf@,
            final(self).index == old(self).index,
            final(self).child == old(self).child,
    {
        let sum: u8 = if self.buf.len() >= 2 {
            assert(self.buf@.subrange(2, self.buf@.len() as int) =~= self.buf@.skip(2));
            self.sum_between(2, self.buf.len())
        } else {
            0
        };
        self.buf.push(ETX);
        self.buf.push(sum);
        Ok(self.buf.clone())
    }

    /// The checksum of the bytes from position `from` up to position `to`.
    fn sum_between(&self, from: usize, to: usize) -> (r: u8)
        requires
            from <= to <= self.buf@.len(),
        ensures
            r == checksum(self.buf@.subrange(from as int, to as int)),
    {
        let mut sum: u16 = 0;
        let mut i: usize = from;
        while i < to
            invariant
                from <= i <= to <= self.buf@.len(),
                sum == checksum(self.buf@.subrange(from as int, i as int)),
                sum <= 0xff,
            decreases to - i,
        {
            let d: u16 = self.buf[i] as u16;
            let total: u16 = sum + d;
            assert(total & 0xff == total % 256) by (bit_vector);
            assert(self.buf@.subrange(from as int, i + 1).drop_last() =~= self.buf@.subrange(
                from as int,
                i as int,
            ));
            sum = total & 0xff;
            i += 1;
        }
        sum as u8
    }

    /// The checksum of the whole buffer: the sum of its bytes modulo 256.
    pub fn check_sum(&mut self) -> (r: Result<u8, DbError>)
        ensures
            r == Ok::<u8, DbError>(checksum(old(self).buf@)),
            *final(self) == *old(self),
    {
        assert(self.buf@.subrange(0, self.buf@.len() as int) =~= self.buf@);
        Ok(self.sum_between(0, self.buf.len()))
    }

    /// A copy of the bytes of this scope, as they go to a file.
    pub fn write(&self) -> (r: Vec<u8>)
        ensures
            r@ == self.buf@,
    {
        self.buf.clone()
    }

    /// Takes the whole content of a file as the bytes of this scope and
    /// sets the cursor to their start.
    pub fn read_to_end(&mut self, file: &[u8])
        ensures
            final(self).buf@ == file@,
            final(self).index == 0,
            final(self).child == old(self).child,
            old(self).wf() ==> final(self).wf(),
    {
        self.buf = vstd::slice::slice_to_vec(file);
        self.index = 0;
    }

    /// Moves the cursor to the next start or end marker and tells whether it
    /// is a start marker. At an end marker or at the end of the bytes there
    /// is no further record at this level.
    pub fn next_stx_index(&mut self) -> (r: bool)
        requires
            old(self).wf(),
        ensures
            final(self).buf == old(self).buf,
            final(self).child == old(self).child,
            final(self).index == scan(old(self).buf@, old(self).index as int),
            r == (scan(old(self).buf@, old(self).index as int) < old(self).buf@.len()
                && old(self).buf@[scan(old(self).buf@, old(self).index as int)] == STX),
            final(self).wf(),
    {
        proof {
            lemma_scan_bounds(self.buf@, self.index as int);
        }
        loop
            invariant
                self.buf == old(self).buf,
                self.child == old(self).child,
                old(self).index <= self.index <= self.buf@.len(),
                scan(self.buf@, self.index as int) == scan(old(self).buf@, old(self).index as int),
                self.wf(),
            ensures
                self.index < self.buf@.len(),
                self.buf@[self.index as int] == STX,
            decreases self.buf@.len() - self.index,
        {
            if self.index >= self.buf.len() {
                return false;
            }
            if self.buf[self.index] == ETX {
                return false;
            }
            if self.buf[self.index] == STX {
                break ;
            }
            self.index += 1;
        }
        true
    }

    /// Checks the byte at the cursor against the checksum of the bytes
    /// between the start marker, which is the first byte, and the end
    /// marker, which is the byte before the cursor, and cuts the buffer off
    /// at the cursor. Gives the cursor if they agree.
    pub fn read_check_sum(&mut self) -> (r: Result<usize, DbError>)
        requires
            old(self).wf(),
        ensures
            old(self).index >= old(self).buf@.len() ==> r == Err::<usize, DbError>(
                DbError::Truncated,
            ) && *final(self) == *old(self),
            old(self).index < old(self).buf@.len() ==> final(self).buf@ == old(self).buf@.take(
                old(self).index as int,
            ) && final(self).index == old(self).index && final(self).child == old(self).child
                && r == (if old(self).buf@[old(self).index as int] == checksum(
                read_body(old(self).buf@, old(self).index as int),
            ) {
                Ok::<usize, DbError>(old(self).index)
            } else {
                Err::<usize, DbError>(DbError::ChecksumMismatch)
            }),
            final(self).wf(),
    {
        if self.index >= self.buf.len() {
            return Err(DbError::Truncated);
        }
        let stored: u8 = self.buf[self.index];
        let sum: u8 = if self.index >= 2 {
            self.sum_between(1, self.index - 1)
        } else {
            0
        };
        self.buf.truncate(self.index);
        if stored == sum {
            Ok(self.index)
        } else {
            Err(DbError::ChecksumMismatch)
        }
    }

    /// The value that the `n` bytes at `at` spell, most significant first.
    fn value_at(&self, at: usize, n: usize) -> (r: u128)
        requires
            at + n <= self.buf@.len(),
        ensures
            r == be_value(self.buf@.subrange(at as int, at + n)),
    {
        let mut data: u128 = 0;
        let mut k: usize = 0;
        let total: usize = self.buf.len();
        while k < n
            invariant
                k <= n,
                at + n <= total,
                total == self.buf@.len(),
                data == be_value(self.buf@.subrange(at as int, at + k)),
            decreases n - k,
        {
            let b: u8 = self.buf[at + k];
            assert(self.buf@.subrange(at as int, at + k + 1).drop_last() =~= self.buf@.subrange(
                at as int,
                at + k,
            ));
            data = (data << 8) | (b as u128);
            k += 1;
        }
        data
    }

    /// Closes the open nested scope after reading: checks its checksum and
    /// moves the cursor past the bytes that the scope consumed, the
    /// checksum included.
    pub fn read_child(&mut self) -> (r: Result<(), DbError>)
        requires
            old(self).wf(),
        ensures
            final(self).buf == old(self).buf,
            final(self).wf(),
            r is Err ==> final(self).index == old(self).index,
            old(self).child@.len() == 0 ==> r == Err::<(), DbError>(DbError::MissingChild)
                && *final(self) == *old(self),
            old(self).child@.len() > 0 ==> ({
                let scope = old(self).child@[0];
                let left = final(self).child@[0];
                &&& final(self).child@ == old(self).child@.update(0, left)
                &&& left.index == scope.index
                &&& left.child == scope.child
                &&& left.buf@ == (if scope.index < scope.buf@.len() {
                    scope.buf@.take(scope.index as int)
                } else {
                    scope.buf@
                })
            }),
            old(self).child@.len() > 0 ==> ({
                let scope = old(self).child@[0];
                if scope.index >= scope.buf@.len() {
                    r == Err::<(), DbError>(DbError::Truncated)
                } else if scope.buf@[scope.index as int] != checksum(
                    read_body(scope.buf@, scope.index as int),
                ) {
                    r == Err::<(), DbError>(DbError::ChecksumMismatch)
                } else if scope.index >= old(self).buf@.len() - old(self).index {
                    r == Err::<(), DbError>(DbError::Truncated)
                } else {
                    r is Ok && final(self).index == old(self).index + scope.index + 1
                }
            }),
    {
        if self.child.len() == 0 {
            return Err(DbError::MissingChild);
        }
        let checked = self.child[0].read_check_sum();
        match checked {
            Ok(used) => {
                if used >= self.buf.len() - self.index {
                    Err(DbError::Truncated)
                } else {
                    self.index += used + 1;
                    Ok(())
                }
            },
            Err(e) => Err(e),
        }
    }

    /// Reads one byte.
    pub fn read_u8(&mut self) -> (r: Result<u8, DbError>)
        requires
            old(self).wf(),
        ensures
            final(self).buf == old(self).buf,
            final(self).child == old(self).child,
            final(self).wf(),
            old(self).index < old(self).buf@.len() ==> r == Ok::<u8, DbError>(
                old(self).buf@[old(self).index as int],
            ) && final(self).index == old(self).index + 1,
            old(self).index >= old(self).buf@.len() ==> r == Err::<u8, DbError>(
                DbError::Truncated,
            ) && final(self).index == old(self).index,
    {
        if self.index >= self.buf.len() {
            return Err(DbError::Truncated);
        }
        let u: u8 = self.buf[self.index];
        self.index += 1;
        Ok(u)
    }

    /// Reads a 32-bit value from four bytes, most significant first.
    pub fn read_u32(&mut self) -> (r: Result<u32, DbError>)
        requires
            old(self).wf(),
        ensures
            final(self).buf == old(self).buf,
            final(self).child == old(self).child,
            final(self).wf(),
            match u32_at(old(self).buf@, old(self).index as int) {
                Some(v) => r == Ok::<u32, DbError>(v) && final(self).index == old(self).index + 4,
                None => r == Err::<u32, DbError>(DbError::Truncated) && final(self).index == old(
                    self,
                ).index,
            },
    {
        if self.buf.len() - self.index < 4 {
            return Err(DbError::Truncated);
        }
        let data: u128 = self.value_at(self.index, 4);
        self.index += 4;
        Ok(data as u32)
    }

    /// Reads a 128-bit value from sixteen bytes, most significant first.
    pub fn read_u128(&mut self) -> (r: Result<u128, DbError>)
        requires
            old(self).wf(),
        ensures
            final(self).buf == old(self).buf,
            final(self).child == old(self).child,
            final(self).wf(),
            match u128_at(old(self).buf@, old(self).index as int) {
                Some(v) => r == Ok::<u128, DbError>(v) && final(self).index == old(self).index
                    + 16,
                None => r == Err::<u128, DbError>(DbError::Truncated) && final(self).index
                    == old(self).index,
            },
    {
        if self.buf.len() - self.index < 16 {
            return Err(DbError::Truncated);
        }
        let data: u128 = self.value_at(self.index, 16);
        self.index += 16;
        Ok(data)
    }

    /// Reads the next `len` bytes.
    pub fn read_u8_vec(&mut self, len: usize) -> (r: Result<Vec<u8>, DbError>)
        requires
            old(self).wf(),
        ensures
            final(self).buf == old(self).buf,
            final(self).child == old(self).child,
            final(self).wf(),
            len <= old(self).buf@.len() - old(self).index ==> r is Ok && r->Ok_0@ == old(
                self,
            ).buf@.subrange(old(self).index as int, old(self).index + len) && final(self).index
                == old(self).index + len,
            len > old(self).buf@.len() - old(self).index ==> r == Err::<Vec<u8>, DbError>(
                DbError::Truncated,
            ) && final(self).index == old(self).index,
    {
        if len > self.buf.len() - self.index {
            return Err(DbError::Truncated);
        }
        let part = vstd::slice::slice_subrange(self.buf.as_slice(), self.index, self.index + len);
        let vec = vstd::slice::slice_to_vec(part);
        self.index += len;
        Ok(vec)
    }

    /// Reads a length-prefixed field: the length as sixteen bytes, then as
    /// many bytes as it says.
    pub fn read_field(&mut self) -> (r: Result<Vec<u8>, DbError>)
        requires
            old(self).wf(),
        ensures
            final(self).buf == old(self).buf,
            final(self).child == old(self).child,
            final(self).wf(),
            match field_at(old(self).buf@, old(self).index as int) {
                Some(bytes) => r is Ok && r->Ok_0@ == bytes && final(self).index == old(
                    self,
                ).index + 16 + bytes.len(),
                None => r == Err::<Vec<u8>, DbError>(DbError::Truncated) && final(self).index
                    == old(self).index,
            },
    {
        if self.buf.len() - self.index < 16 {
            return Err(DbError::Truncated);
        }
        let n: u128 = self.value_at(self.index, 16);
        let rest: usize = self.buf.len() - self.index - 16;
        if n > rest as u128 {
            return Err(DbError::Truncated);
        }
        self.index += 16;
        self.read_u8_vec(n as usize)
    }

    /// Reads a text: its length in bytes as sixteen bytes, then its UTF-8 bytes.
    pub fn read_str(&mut self) -> (r: Result<String, DbError>)
        requires
            old(self).wf(),
        ensures
            final(self).buf == old(self).buf,
            final(self).child == old(self).child,
            final(self).wf(),
            match field_at(old(self).buf@, old(self).index as int) {
                Some(bytes) => if valid_utf8(bytes) {
                    r is Ok && r->Ok_0@ == decode_utf8(bytes) && final(self).index == old(
                        self,
                    ).index + 16 + bytes.len()
                } else {
                    r == Err::<String, DbError>(DbError::InvalidUtf8) && final(self).index == old(
                        self,
                    ).index
                },
                None => r == Err::<String, DbError>(DbError::Truncated) && final(self).index
                    == old(self).index,
            },
    {
        let start: usize = self.index;
        let bytes = self.read_field()?;
        match string_from_utf8(bytes) {
            Some(text) => Ok(text),
            None => {
                self.index = start;
                Err(DbError::InvalidUtf8)
            },
        }
    }

    /// Reads a length as sixteen bytes and gives it as four 32-bit words,
    /// most significant first; then passes over as many 32-bit values as the
    /// length says, and over as many bytes again.
    pub fn read_str_value(&mut self) -> (r: Result<Vec<u32>, DbError>)
        requires
            old(self).wf(),
        ensures
            final(self).buf == old(self).buf,
            final(self).child == old(self).child,
            final(self).wf(),
            match u128_at(old(self).buf@, old(self).index as int) {
                Some(n) => if 5 * n <= old(self).buf@.len() - old(self).index - 16 {
                    r is Ok && r->Ok_0@ == words_from(n, 96) && final(self).index == old(
                        self,
                    ).index + 16 + 5 * n
                } else {
                    r == Err::<Vec<u32>, DbError>(DbError::Truncated) && final(self).index == old(
                        self,
                    ).index
                },
                None => r == Err::<Vec<u32>, DbError>(DbError::Truncated) && final(self).index
                    == old(self).index,
            },
    {
        if self.buf.len() - self.index < 16 {
            return Err(DbError::Truncated);
        }
        let n: u128 = self.value_at(self.index, 16);
        let rest: usize = self.buf.len() - self.index - 16;
        if n > (rest / 5) as u128 {
            return Err(DbError::Truncated);
        }
        let len: usize = n as usize;
        let mut vec: Vec<u32> = Vec::new();
        let _ = u128_to_u32slice(n, &mut vec, 96);
        self.index += 16;
        let mut k: usize = 0;
        while k < len
            invariant
                k <= len,
                self.buf == old(self).buf,
                self.child == old(self).child,
                self.index == old(self).index + 16 + 4 * k,
                5 * len <= self.buf@.len() - old(self).index - 16,
                self.wf(),
            decreases len - k,
        {
            let _ = self.read_u32();
            k += 1;
        }
        self.index += len;
        assert(vec@ =~= words_from(n, 96));
        Ok(vec)
    }
}

} // verus!
