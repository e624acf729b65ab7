//! Buffer shared between the shell and the processes that it forks.
//!
//! The buffer is a mapping of fixed length. A lock and a write cursor stand
//! at its start; the rest is a run of bytes. Bytes before the cursor have
//! been written and wait to be read; bytes from the cursor on are free.
//! Whoever holds the lock sees the buffer as a `SharedBufferGuard`.

use vstd::prelude::*;

verus! {

/// Minimum size for the shared buffer.
pub const MIN_BUFFER_SIZE: usize = 4 * 1024;

/// Number of bytes that are kept of the path and of each argument of a
/// command, until the limit is changed.
pub const DEFAULT_MAX_CMDLINE: usize = 256;

/// Code with which the system reports that a wait ran out of time.
pub const ETIMEDOUT: i32 = 110;

/// Why a shared buffer cannot be made.
#[derive(Clone, Copy, Debug, PartialEq, Eq, Structural)]
pub enum BufferError {
    /// The buffer length is too small.
    InvalidInput,
}

/// Why the lock of a shared buffer was not acquired.
#[derive(Clone, Copy, Debug, PartialEq, Eq, Structural)]
pub enum LockError {
    /// The lock was held by others until the deadline.
    TimedOut,
    /// The system failed with this code.
    Os(i32),
}

impl LockError {
    /// The error that the code `code` of the system stands for.
    pub open spec fn spec_from_raw_os_error(code: i32) -> LockError {
        if code == ETIMEDOUT {
            LockError::TimedOut
        } else {
            LockError::Os(code)
        }
    }

    /// The error that the code `code` of the system stands for.
    pub fn from_raw_os_error(code: i32) -> (error: LockError)
        ensures
            error == LockError::spec_from_raw_os_error(code),
    {
        if code == ETIMEDOUT {
            LockError::TimedOut
        } else {
            LockError::Os(code)
        }
    }
}

/// Access to the data in the shared buffer.
#[derive(Debug)]
pub struct SharedBufferGuard {
    cursor: usize,
    max_cmdline: usize,
    data: Vec<u8>,
}

impl SharedBufferGuard {
    /// The invariant of the access: the cursor is inside the data, or at
    /// their end.
    pub open spec fn wf(&self) -> bool {
        self.cursor() <= self.data().len()
    }

    /// Position of the write cursor.
    pub closed spec fn cursor(&self) -> nat {
        self.cursor as nat
    }

    /// Every byte of the buffer, written or not.
    pub closed spec fn data(&self) -> Seq<u8> {
        self.data@
    }

    /// Number of bytes that are kept of the path and of each argument of a
    /// command.
    pub closed spec fn spec_max_cmdline(&self) -> usize {
        self.max_cmdline
    }

    /// The bytes written in the buffer.
    pub open spec fn written(&self) -> Seq<u8> {
        self.data().take(self.cursor() as int)
    }

    /// The bytes of the buffer that are free.
    pub open spec fn free(&self) -> Seq<u8> {
        self.data().skip(self.cursor() as int)
    }

    /// Access to a buffer that holds `data`, `cursor` bytes of which are
    /// written, and the limit `max_cmdline`. There is none when `data` has
    /// fewer bytes than that.
    pub fn from_parts(cursor: usize, max_cmdline: usize, data: Vec<u8>) -> (guard: Option<
        SharedBufferGuard,
    >)
        ensures
            guard is Some <==> cursor <= data@.len(),
            guard matches Some(g) ==> g.wf() && g.cursor() == cursor && g.spec_max_cmdline()
                == max_cmdline && g.data() == data@,
    {
        if cursor <= data.len() {
            Some(SharedBufferGuard { cursor, max_cmdline, data })
        } else {
            None
        }
    }

    /// The position of the cursor, the limit, and every byte of the buffer.
    pub fn into_parts(self) -> (parts: (usize, usize, Vec<u8>))
        ensures
            parts.0 == self.cursor(),
            parts.1 == self.spec_max_cmdline(),
            parts.2@ == self.data(),
    {
        (self.cursor, self.max_cmdline, self.data)
    }

    /// Position of the write cursor.
    pub fn position(&self) -> (cursor: usize)
        ensures
            cursor == self.cursor(),
    {
        self.cursor
    }

    /// Number of bytes that are kept of the path and of each argument of a
    /// command.
    pub fn max_cmdline(&self) -> (limit: usize)
        ensures
            limit == self.spec_max_cmdline(),
    {
        self.max_cmdline
    }

    /// Changes the number of bytes that are kept of the path and of each
    /// argument of a command.
    pub fn set_max_cmdline(&mut self, limit: usize)
        ensures
            final(self).spec_max_cmdline() == limit,
            final(self).cursor() == old(self).cursor(),
            final(self).data() == old(self).data(),
            final(self).wf() == old(self).wf(),
    {
        self.max_cmdline = limit;
    }

    /// Number of bytes that the buffer can hold.
    pub fn capacity(&self) -> (capacity: usize)
        ensures
            capacity == self.data().len(),
    {
        self.data.len()
    }

    /// Discard data in the shared buffer, and reset the write cursor to `0`.
    pub fn clear(&mut self)
        ensures
            final(self).wf(),
            final(self).cursor() == 0,
            final(self).data() == old(self).data(),
            final(self).spec_max_cmdline() == old(self).spec_max_cmdline(),
    {
        self.cursor = 0;
    }

    /// Move the write cursor `n` bytes, usually called after updating the
    /// shared buffer with the slice from [`output`].
    ///
    /// If the new position exceeds the capacity, it returns `false`, and
    /// nothing changes.
    ///
    /// [`output`]: SharedBufferGuard::output
    pub fn advance(&mut self, n: usize) -> (moved: bool)
        requires
            old(self).wf(),
        ensures
            final(self).wf(),
            moved == (old(self).cursor() + n <= old(self).data().len()),
            moved ==> final(self).cursor() == old(self).cursor() + n,
            !moved ==> final(self).cursor() == old(self).cursor(),
            final(self).data() == old(self).data(),
            final(self).spec_max_cmdline() == old(self).spec_max_cmdline(),
    {
        let capacity = self.data.len();
        if n > capacity - self.cursor {
            return false;
        }
        self.cursor = self.cursor + n;
        true
    }

    /// Returns a slice of the data written in the shared buffer.
    pub fn input(&self) -> (bytes: &[u8])
        requires
            self.wf(),
        ensures
            bytes@ == self.written(),
    {
        let bytes = vstd::slice::slice_subrange(self.data.as_slice(), 0, self.cursor);
        assert(bytes@ =~= self.written());
        bytes
    }

    /// Returns a mutable slice to write data in the shared buffer. [`advance`]
    /// is required to update the write cursor.
    ///
    /// [`advance`]: SharedBufferGuard::advance
    pub fn output(&mut self) -> (out: &mut [u8])
        requires
            old(self).wf(),
        ensures
            out@ == old(self).free(),
            final(self).wf(),
            final(self).cursor() == old(self).cursor(),
            final(self).spec_max_cmdline() == old(self).spec_max_cmdline(),
            final(self).data() == old(self).written() + final(out)@,
    {
        let cursor = self.cursor;
        let (_, rest) = self.data.as_mut_slice().split_at_mut(cursor);
        assert(rest@ =~= old(self).free());
        assert(old(self).data().subrange(0, cursor as int) =~= old(self).written());
        rest
    }
}

/// Buffer that can be shared between multiple processes.
#[derive(Debug)]
pub struct SharedBuffer {
    guard: SharedBufferGuard,
}

impl SharedBuffer {
    /// Number of bytes for data in a mapping of `len` bytes, `header` of
    /// which are taken by the lock and the cursor. There is none when the
    /// mapping is too small.
    pub open spec fn spec_capacity(len: usize, header: usize) -> Option<usize> {
        if len < MIN_BUFFER_SIZE || header > len {
            None
        } else {
            Some((len - header) as usize)
        }
    }

    /// Number of bytes for data in a mapping of `len` bytes, `header` of
    /// which are taken by the lock and the cursor.
    pub fn capacity(len: usize, header: usize) -> (capacity: Result<usize, BufferError>)
        ensures
            match capacity {
                Ok(capacity) => SharedBuffer::spec_capacity(len, header) == Some(capacity),
                Err(error) => SharedBuffer::spec_capacity(len, header) is None && error
                    == BufferError::InvalidInput,
            },
    {
        if len < MIN_BUFFER_SIZE || header > len {
            return Err(BufferError::InvalidInput);
        }
        Ok(len - header)
    }

    /// What whoever holds the lock sees.
    pub closed spec fn view(&self) -> SharedBufferGuard {
        self.guard
    }

    /// A buffer of `len` bytes, `header` of which are taken by the lock and
    /// the cursor. Nothing is written in it.
    pub fn new(len: usize, header: usize) -> (buffer: Result<SharedBuffer, BufferError>)
        ensures
            match buffer {
                Ok(buffer) => SharedBuffer::spec_capacity(len, header) == Some(
                    buffer@.data().len() as usize,
                ) && buffer@.wf() && buffer@.cursor() == 0 && buffer@.spec_max_cmdline()
                    == DEFAULT_MAX_CMDLINE && buffer@.data() == Seq::new(
                    buffer@.data().len(),
                    |i: int| 0u8,
                ),
                Err(error) => SharedBuffer::spec_capacity(len, header) is None && error
                    == BufferError::InvalidInput,
            },
    {
        let capacity = SharedBuffer::capacity(len, header)?;
        let data: Vec<u8> = vec![0u8; capacity];
        assert(data@ =~= Seq::new(capacity as nat, |i: int| 0u8));
        Ok(
            SharedBuffer {
                guard: SharedBufferGuard { cursor: 0, max_cmdline: DEFAULT_MAX_CMDLINE, data },
            },
        )
    }

    /// Acquires a lock to the data in the shared buffer.
    ///
    /// `code` is what the system returned when it was asked for the lock,
    /// with a deadline: zero if the lock was acquired.
    pub fn lock(&mut self, code: i32) -> (guard: Result<&mut SharedBufferGuard, LockError>)
        ensures
            match guard {
                Ok(guard) => code == 0 && *guard == old(self)@ && final(self)@ == *final(guard),
                Err(error) => code != 0 && error == LockError::spec_from_raw_os_error(code)
                    && final(self)@ == old(self)@,
            },
    {
        if code != 0 {
            return Err(LockError::from_raw_os_error(code));
        }
        Ok(&mut self.guard)
    }
}

} // verus!
