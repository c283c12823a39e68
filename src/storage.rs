use vstd::prelude::*;
use crate::program::{command_effect, Command, Data};
use crate::text::{
    all_ascii, ascii_chars, ascii_of, centered, decimal, decode_utf8, lemma_ascii_of_ascii, lemma_concat_ascii,
    lemma_decimal_ascii, push_ascii, push_centered, push_decimal,
};

verus! {

/// The largest index of a cell that the tape may be grown to hold.
pub const SANITY_LIMIT: usize = 4096;

/// The value of cell `i` of a tape: cells past the end read as zero.
pub open spec fn cell_of(tape: Seq<u8>, i: int) -> u8 {
    if 0 <= i < tape.len() {
        tape[i]
    } else {
        0
    }
}

/// The tape after it has been made long enough to hold index `index`,
/// zero-filling the new cells.
pub open spec fn grown(tape: Seq<u8>, index: int) -> Seq<u8> {
    if index < tape.len() {
        tape
    } else {
        tape + Seq::new((index + 1 - tape.len()) as nat, |_j: int| 0u8)
    }
}

/// Growing a tape keeps every cell value and reaches the index.
pub proof fn lemma_grown(tape: Seq<u8>, index: int)
    requires
        0 <= index,
    ensures
        grown(tape, index).len() > index,
        grown(tape, index).len() >= tape.len(),
        forall|j: int| #[trigger] cell_of(grown(tape, index), j) == cell_of(tape, j),
{
}

/// Makes `vec` long enough to hold index `size`.
fn ensure_sized(vec: &mut Vec<u8>, size: usize)
    requires
        size <= SANITY_LIMIT,
    ensures
        final(vec)@ == grown(old(vec)@, size as int),
{
    if size >= vec.len() {
        vec.resize(size + 1, 0);
        assert(final(vec)@ =~= grown(old(vec)@, size as int)) by {
            assert forall|j: int| old(vec)@.len() <= j < size + 1 implies vec@[j] == 0u8 by {}
            assert(vec@.subrange(0, old(vec)@.len() as int) == old(vec)@);
        }
    }
}

/// The machine's memory: a tape of byte cells, all zero at first, and a
/// pointer to the current cell.
pub struct Storage {
    tape: Vec<u8>,
    ptr: usize,
}

impl Storage {
    /// The cells that have been created so far.
    pub closed spec fn tape(&self) -> Seq<u8> {
        self.tape@
    }

    /// The index of the current cell.
    pub closed spec fn ptr(&self) -> nat {
        self.ptr as nat
    }

    /// The value of the current cell.
    pub open spec fn current(&self) -> u8 {
        cell_of(self.tape(), self.ptr() as int)
    }

    /// Whether the current cell can be reached without passing the size limit.
    pub open spec fn in_limit(&self) -> bool {
        self.ptr() <= SANITY_LIMIT
    }

    /// The tape once the current cell has been created.
    pub open spec fn sized_tape(&self) -> Seq<u8> {
        grown(self.tape(), self.ptr() as int)
    }

    /// An empty tape with the pointer on cell 0.
    pub fn new() -> (r: Storage)
        ensures
            r.tape() == Seq::<u8>::empty(),
            r.ptr() == 0,
    {
        Storage { tape: Vec::new(), ptr: 0 }
    }

    /// The number of cells created so far.
    pub fn len(&self) -> (r: usize)
        ensures
            r == self.tape().len(),
    {
        self.tape.len()
    }

    /// The index of the current cell.
    pub fn pointer(&self) -> (r: usize)
        ensures
            r == self.ptr(),
    {
        self.ptr
    }

    /// The value of cell `i`, zero where it has not been created.
    pub fn cell(&self, i: usize) -> (r: u8)
        ensures
            r == cell_of(self.tape(), i as int),
    {
        if i < self.tape.len() {
            self.tape[i]
        } else {
            0
        }
    }

    /// A mutable reference to the current cell, creating it first.
    pub fn get_mut(&mut self) -> (r: &mut u8)
        requires
            old(self).in_limit(),
        ensures
            *r == old(self).current(),
            final(self).ptr() == old(self).ptr(),
            final(self).tape() == old(self).sized_tape().update(old(self).ptr() as int, *final(r)),
    {
        ensure_sized(&mut self.tape, self.ptr);
        proof { lemma_grown(old(self).tape@, old(self).ptr as int); }
        let p = self.ptr;
        &mut self.tape[p]
    }

    /// The value of the current cell, creating it first.
    pub fn get(&mut self) -> (r: &u8)
        requires
            old(self).in_limit(),
        ensures
            *r == old(self).current(),
            final(self).ptr() == old(self).ptr(),
            final(self).tape() == old(self).sized_tape(),
    {
        ensure_sized(&mut self.tape, self.ptr);
        proof { lemma_grown(old(self).tape@, old(self).ptr as int); }
        &self.tape[self.ptr]
    }

    /// Stores `val` in the current cell.
    pub fn set(&mut self, val: u8)
        requires
            old(self).in_limit(),
        ensures
            final(self).ptr() == old(self).ptr(),
            final(self).tape() == old(self).sized_tape().update(old(self).ptr() as int, val),
    {
        let v = self.get_mut();
        *v = val;
    }

    /// Adds one to the current cell, modulo 256.
    pub fn inc_mem(&mut self)
        requires
            old(self).in_limit(),
        ensures
            final(self).ptr() == old(self).ptr(),
            final(self).tape() == old(self).sized_tape().update(
                old(self).ptr() as int,
                ((old(self).current() + 1) % 256) as u8,
            ),
    {
        let v = self.get_mut();
        *v = v.wrapping_add(1);
    }

    /// Subtracts one from the current cell, modulo 256.
    pub fn dec_mem(&mut self)
        requires
            old(self).in_limit(),
        ensures
            final(self).ptr() == old(self).ptr(),
            final(self).tape() == old(self).sized_tape().update(
                old(self).ptr() as int,
                ((old(self).current() + 255) % 256) as u8,
            ),
    {
        let v = self.get_mut();
        *v = v.wrapping_sub(1);
    }

    /// Moves the pointer one cell to the right.
    pub fn inc_ptr(&mut self)
        requires
            old(self).ptr() < usize::MAX,
        ensures
            final(self).ptr() == old(self).ptr() + 1,
            final(self).tape() == old(self).tape(),
    {
        self.ptr = self.ptr + 1;
    }

    /// Moves the pointer one cell to the left.
    pub fn dec_ptr(&mut self)
        requires
            old(self).ptr() > 0,
        ensures
            final(self).ptr() == old(self).ptr() - 1,
            final(self).tape() == old(self).tape(),
    {
        self.ptr = self.ptr - 1;
    }

    /// The data that the tape commands act on.
    pub open spec fn as_data(&self) -> Data {
        Data { tape: self.tape(), ptr: self.ptr(), input: Seq::empty(), output: Seq::empty() }
    }

    /// Runs one of the tape commands `+ - > <`.
    pub fn command(&mut self, command: &Command)
        requires
            command is Plus || command is Minus || command is Right || command is Left,
            command_effect(*command, old(self).as_data()) is Ok,
        ensures
            final(self).tape() == command_effect(*command, old(self).as_data())->Ok_0.tape,
            final(self).ptr() == command_effect(*command, old(self).as_data())->Ok_0.ptr,
    {
        match command {
            Command::Plus => self.inc_mem(),
            Command::Minus => self.dec_mem(),
            Command::Right => self.inc_ptr(),
            Command::Left => self.dec_ptr(),
            _ => {},
        }
    }
}

/// How many cells the rendering shows on each side of the pointer.
pub const VIEW_OFFSET: usize = 10;

/// The first and one-past-last index of the cells that the rendering shows.
pub open spec fn view_window(len: nat, ptr: nat) -> (nat, nat) {
    let hi: nat = if len > VIEW_OFFSET && ptr + VIEW_OFFSET <= len {
        (ptr + VIEW_OFFSET) as nat
    } else {
        len
    };
    let lo = if ptr >= VIEW_OFFSET {
        (ptr - VIEW_OFFSET) as nat
    } else {
        0
    };
    (if lo <= hi {
        lo
    } else {
        hi
    }, hi)
}

/// The row of cell indices from `i` up to `hi`, the pointer's marked with `>`.
pub open spec fn index_row(i: nat, hi: nat, ptr: nat) -> Seq<u8>
    decreases hi - i,
{
    if i >= hi {
        Seq::empty()
    } else {
        seq![if i == ptr { 62u8 } else { 32u8 }] + centered(decimal(i)) + seq![32u8] + index_row(
            i + 1,
            hi,
            ptr,
        )
    }
}

/// The row of cell values from `i` up to `hi`.
pub open spec fn value_row(tape: Seq<u8>, i: nat, hi: nat) -> Seq<u8>
    decreases hi - i,
{
    if i >= hi {
        Seq::empty()
    } else {
        seq![32u8] + centered(decimal(cell_of(tape, i as int) as nat)) + seq![32u8] + value_row(
            tape,
            i + 1,
            hi,
        )
    }
}

/// The text that shows the size of a tape, its pointer, and the cells
/// around the pointer.
pub open spec fn rendering(tape: Seq<u8>, ptr: nat) -> Seq<u8> {
    let (lo, hi) = view_window(tape.len(), ptr);
    ascii_of("[Storage size="@) + decimal(tape.len()) + ascii_of(" ptr="@) + decimal(ptr) + ascii_of(
        "]\n"@,
    ) + index_row(lo, hi, ptr) + ascii_of("\n"@) + value_row(tape, lo, hi)
}

impl Storage {
    /// The size of the tape, the pointer, and the cells around the pointer,
    /// as ASCII text.
    pub fn render_bytes(&self) -> (r: Vec<u8>)
        ensures
            r@ == rendering(self.tape(), self.ptr()),
    {
        let len = self.tape.len();
        let ptr = self.ptr;
        let mut out: Vec<u8> = Vec::new();
        proof { reveal_strlit("[Storage size="); }
        push_ascii(&mut out, "[Storage size=");
        push_decimal(&mut out, len);
        proof { reveal_strlit(" ptr="); }
        push_ascii(&mut out, " ptr=");
        push_decimal(&mut out, ptr);
        proof { reveal_strlit("]\n"); }
        push_ascii(&mut out, "]\n");
        let hi = if len > VIEW_OFFSET && ptr <= len - VIEW_OFFSET {
            ptr + VIEW_OFFSET
        } else {
            len
        };
        let lo0 = if ptr >= VIEW_OFFSET {
            ptr - VIEW_OFFSET
        } else {
            0
        };
        let lo = if lo0 <= hi {
            lo0
        } else {
            hi
        };
        let ghost head = out@;
        let mut i: usize = lo;
        while i < hi
            invariant
                lo <= i <= hi,
                out@ + index_row(i as nat, hi as nat, ptr as nat) == head + index_row(
                    lo as nat,
                    hi as nat,
                    ptr as nat,
                ),
            decreases hi - i,
        {
            let ghost before = out@;
            out.push(if i == ptr { 62 } else { 32 });
            push_centered(&mut out, i);
            out.push(32);
            assert(before + index_row(i as nat, hi as nat, ptr as nat) =~= out@ + index_row(
                (i + 1) as nat,
                hi as nat,
                ptr as nat,
            ));
            i = i + 1;
        }
        proof { reveal_strlit("\n"); }
        push_ascii(&mut out, "\n");
        let ghost mid = out@;
        let mut j: usize = lo;
        while j < hi
            invariant
                lo <= j <= hi,
                hi <= self.tape@.len(),
                out@ + value_row(self.tape(), j as nat, hi as nat) == mid + value_row(
                    self.tape(),
                    lo as nat,
                    hi as nat,
                ),
            decreases hi - j,
        {
            let ghost before = out@;
            out.push(32);
            push_centered(&mut out, self.tape[j] as usize);
            out.push(32);
            assert(before + value_row(self.tape(), j as nat, hi as nat) =~= out@ + value_row(
                self.tape(),
                (j + 1) as nat,
                hi as nat,
            ));
            j = j + 1;
        }
        assert(out@ =~= rendering(self.tape(), self.ptr()));
        out
    }
}

proof fn lemma_rows_ascii(tape: Seq<u8>, i: nat, hi: nat, ptr: nat)
    ensures
        all_ascii(index_row(i, hi, ptr)),
        all_ascii(value_row(tape, i, hi)),
    decreases hi - i,
{
    if i < hi {
        lemma_rows_ascii(tape, i + 1, hi, ptr);
        lemma_decimal_ascii(i);
        lemma_decimal_ascii(cell_of(tape, i as int) as nat);
        let mark = seq![if i == ptr { 62u8 } else { 32u8 }];
        let sp = seq![32u8];
        lemma_concat_ascii(mark, centered(decimal(i)));
        lemma_concat_ascii(mark + centered(decimal(i)), sp);
        lemma_concat_ascii(mark + centered(decimal(i)) + sp, index_row(i + 1, hi, ptr));
        let c = centered(decimal(cell_of(tape, i as int) as nat));
        lemma_concat_ascii(sp, c);
        lemma_concat_ascii(sp + c, sp);
        lemma_concat_ascii(sp + c + sp, value_row(tape, i + 1, hi));
    }
}

/// The rendering of a tape is ASCII text.
pub proof fn lemma_rendering_ascii(tape: Seq<u8>, ptr: nat)
    ensures
        all_ascii(rendering(tape, ptr)),
{
    let (lo, hi) = view_window(tape.len(), ptr);
    reveal_strlit("[Storage size=");
    reveal_strlit(" ptr=");
    reveal_strlit("]\n");
    reveal_strlit("\n");
    lemma_ascii_of_ascii("[Storage size=");
    lemma_ascii_of_ascii(" ptr=");
    lemma_ascii_of_ascii("]\n");
    lemma_ascii_of_ascii("\n");
    lemma_decimal_ascii(tape.len());
    lemma_decimal_ascii(ptr);
    lemma_rows_ascii(tape, lo, hi, ptr);
    let a = ascii_of("[Storage size="@);
    let b = a + decimal(tape.len());
    lemma_concat_ascii(a, decimal(tape.len()));
    lemma_concat_ascii(b, ascii_of(" ptr="@));
    let c = b + ascii_of(" ptr="@);
    lemma_concat_ascii(c, decimal(ptr));
    let d = c + decimal(ptr);
    lemma_concat_ascii(d, ascii_of("]\n"@));
    let e = d + ascii_of("]\n"@);
    lemma_concat_ascii(e, index_row(lo, hi, ptr));
    let f = e + index_row(lo, hi, ptr);
    lemma_concat_ascii(f, ascii_of("\n"@));
    lemma_concat_ascii(f + ascii_of("\n"@), value_row(tape, lo, hi));
}

impl Storage {
    /// The size of the tape, the pointer, and the cells around the pointer,
    /// as text.
    pub fn render(&self) -> (r: String)
        ensures
            r@ == ascii_chars(rendering(self.tape(), self.ptr())),
    {
        let bytes = self.render_bytes();
        proof { lemma_rendering_ascii(self.tape(), self.ptr()); }
        match decode_utf8(bytes) {
            Some(text) => text,
            None => String::new(),
        }
    }
}

} // verus!
