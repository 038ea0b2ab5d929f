use vstd::prelude::*;

use crate::chunk::OutputChunk;
use crate::patterns::PF_START;
use crate::strings::{decimal, decimal_digits, push_char};

verus! {

/// One step of writing an output file.
#[derive(Debug, Clone, Copy, PartialEq, Eq, Structural)]
pub enum WriteStep {
    /// The resource preamble, shared by every output file.
    Preamble,
    /// Bytes `start .. end` of the source file.
    Copy { start: u64, end: u64 },
    /// An EDT closing a document whose page groups do not carry one.
    Edt,
    /// An EPF closing a print file whose preamble opened one.
    Epf,
}

/// What an output file is made of, in order: the preamble (if any), the
/// document's prologue and the chunk's page groups copied from the source
/// (each if not empty), an EDT if the chunk needs one, and an EPF if the
/// preamble holds a BPF.
pub open spec fn chunk_steps_spec(
    prologue: (u64, u64),
    pg_range: (u64, u64),
    needs_edt: bool,
    preamble_len: int,
    needs_epf: bool,
) -> Seq<WriteStep> {
    let s0: Seq<WriteStep> = if preamble_len > 0 {
        seq![WriteStep::Preamble]
    } else {
        seq![]
    };
    let s1 = if prologue.1 > prologue.0 {
        s0.push(WriteStep::Copy { start: prologue.0, end: prologue.1 })
    } else {
        s0
    };
    let s2 = if pg_range.1 > pg_range.0 {
        s1.push(WriteStep::Copy { start: pg_range.0, end: pg_range.1 })
    } else {
        s1
    };
    let s3 = if needs_edt {
        s2.push(WriteStep::Edt)
    } else {
        s2
    };
    if needs_epf {
        s3.push(WriteStep::Epf)
    } else {
        s3
    }
}

/// What an output file holds, whatever else is in it: the preamble exactly
/// when there is one, and then first; the prologue and the page groups
/// exactly when their ranges are not empty, the prologue first; an EDT
/// exactly when the chunk needs one; an EPF exactly when the preamble holds a
/// BPF, and then last, right after the EDT if there is one; and nothing else.
pub proof fn lemma_chunk_steps_compose_the_file(
    prologue: (u64, u64),
    pg_range: (u64, u64),
    needs_edt: bool,
    preamble_len: int,
    needs_epf: bool,
)
    ensures
        ({
            let steps = chunk_steps_spec(prologue, pg_range, needs_edt, preamble_len, needs_epf);
            let pro = WriteStep::Copy { start: prologue.0, end: prologue.1 };
            let pgs = WriteStep::Copy { start: pg_range.0, end: pg_range.1 };
            &&& steps.contains(WriteStep::Preamble) == (preamble_len > 0)
            &&& preamble_len > 0 ==> steps[0] == WriteStep::Preamble
            &&& steps.contains(WriteStep::Edt) == needs_edt
            &&& steps.contains(WriteStep::Epf) == needs_epf
            &&& needs_epf ==> steps.last() == WriteStep::Epf
            &&& needs_edt ==> steps[steps.len() - 1 - (if needs_epf {
                1int
            } else {
                0int
            })] == WriteStep::Edt
            &&& prologue.1 > prologue.0 ==> steps.contains(pro)
            &&& pg_range.1 > pg_range.0 ==> steps.contains(pgs)
            &&& prologue.1 > prologue.0 && pg_range.1 > pg_range.0 ==> exists|a: int, b: int|
                0 <= a < b < steps.len() && #[trigger] steps[a] == pro && #[trigger] steps[b] == pgs
            &&& steps.len() == (if preamble_len > 0 {
                1int
            } else {
                0int
            }) + (if prologue.1 > prologue.0 {
                1int
            } else {
                0int
            }) + (if pg_range.1 > pg_range.0 {
                1int
            } else {
                0int
            }) + (if needs_edt {
                1int
            } else {
                0int
            }) + (if needs_epf {
                1int
            } else {
                0int
            })
            &&& forall|k: int|
                0 <= k < steps.len() ==> #[trigger] steps[k] == WriteStep::Preamble || steps[k]
                    == pro || steps[k] == pgs || steps[k] == WriteStep::Edt || steps[k]
                    == WriteStep::Epf
        }),
{
    let steps = chunk_steps_spec(prologue, pg_range, needs_edt, preamble_len, needs_epf);
    let pro = WriteStep::Copy { start: prologue.0, end: prologue.1 };
    let pgs = WriteStep::Copy { start: pg_range.0, end: pg_range.1 };
    let s0: Seq<WriteStep> = if preamble_len > 0 {
        seq![WriteStep::Preamble]
    } else {
        seq![]
    };
    let s1 = if prologue.1 > prologue.0 {
        s0.push(pro)
    } else {
        s0
    };
    let s2 = if pg_range.1 > pg_range.0 {
        s1.push(pgs)
    } else {
        s1
    };
    let s3 = if needs_edt {
        s2.push(WriteStep::Edt)
    } else {
        s2
    };
    assert(forall|k: int| 0 <= k < s2.len() ==> #[trigger] s2[k] != WriteStep::Edt && s2[k] != WriteStep::Epf);
    assert(forall|k: int| 0 <= k < s3.len() ==> #[trigger] s3[k] != WriteStep::Epf);
    assert(forall|k: int| 1 <= k < steps.len() ==> #[trigger] steps[k] != WriteStep::Preamble);
    if preamble_len > 0 {
        assert(steps[0] == WriteStep::Preamble);
    }
    if needs_edt {
        assert(s3[s3.len() - 1] == WriteStep::Edt);
        assert(steps.contains(WriteStep::Edt));
    }
    if needs_epf {
        assert(steps[steps.len() - 1] == WriteStep::Epf);
    }
    if prologue.1 > prologue.0 {
        assert(s1[s1.len() - 1] == pro);
        assert(steps[s1.len() - 1] == pro);
    }
    if pg_range.1 > pg_range.0 {
        assert(s2[s2.len() - 1] == pgs);
        assert(steps[s2.len() - 1] == pgs);
        if prologue.1 > prologue.0 {
            assert(steps[s1.len() - 1] == pro);
        }
    }
}

/// The steps that write the output file of `chunk`.
pub fn chunk_steps(chunk: &OutputChunk, preamble_len: usize, needs_epf: bool) -> (steps: Vec<WriteStep>)
    ensures
        steps@ == chunk_steps_spec(chunk.prologue, chunk.pg_range, chunk.needs_edt, preamble_len as int, needs_epf),
{
    let mut steps: Vec<WriteStep> = Vec::new();
    if preamble_len > 0 {
        steps.push(WriteStep::Preamble);
    }
    let (prologue_start, prologue_end) = chunk.prologue;
    if prologue_end > prologue_start {
        steps.push(WriteStep::Copy { start: prologue_start, end: prologue_end });
    }
    let (pg_start, pg_end) = chunk.pg_range;
    if pg_end > pg_start {
        steps.push(WriteStep::Copy { start: pg_start, end: pg_end });
    }
    if chunk.needs_edt {
        steps.push(WriteStep::Edt);
    }
    if needs_epf {
        steps.push(WriteStep::Epf);
    }
    proof {
        assert(steps@ =~= chunk_steps_spec(
            chunk.prologue,
            chunk.pg_range,
            chunk.needs_edt,
            preamble_len as int,
            needs_epf,
        ));
    }
    steps
}

/// Whether the preamble holds a BPF, so that every output file must be
/// closed with an EPF.
pub open spec fn holds_print_file_start(preamble: Seq<u8>) -> bool {
    exists|i: int| 0 <= i && i + 3 <= preamble.len() && #[trigger] preamble.subrange(i, i + 3) == PF_START@
}

pub fn preamble_needs_epf(preamble: &[u8]) -> (b: bool)
    ensures
        b == holds_print_file_start(preamble@),
{
    let n = preamble.len();
    if n < 3 {
        return false;
    }
    let mut i: usize = 0;
    while i < n - 2
        invariant
            n == preamble@.len(),
            n >= 3,
            0 <= i <= n - 2,
            forall|j: int| 0 <= j < i ==> #[trigger] preamble@.subrange(j, j + 3) != PF_START@,
        decreases n - i,
    {
        if preamble[i] == PF_START[0] && preamble[i + 1] == PF_START[1] && preamble[i + 2] == PF_START[2] {
            proof {
                assert(preamble@.subrange(i as int, i + 3) =~= PF_START@);
            }
            return true;
        }
        proof {
            assert(preamble@.subrange(i as int, i + 3)[0] == preamble@[i as int]);
            assert(preamble@.subrange(i as int, i + 3)[1] == preamble@[i + 1]);
            assert(preamble@.subrange(i as int, i + 3)[2] == preamble@[i + 2]);
        }
        i += 1;
    }
    false
}

/// `digits` left-padded with zeros to at least three.
pub open spec fn padded3(digits: Seq<char>) -> Seq<char> {
    if digits.len() >= 3 {
        digits
    } else if digits.len() == 2 {
        seq!['0'] + digits
    } else {
        seq!['0', '0'] + digits
    }
}

/// The name of output file `index`: `{stem}_{index:03}.afp`.
pub open spec fn output_name(stem: Seq<char>, index: nat) -> Seq<char> {
    stem + "_"@ + padded3(decimal_digits(index)) + ".afp"@
}

proof fn lemma_decimal_nonempty(n: nat)
    ensures
        decimal_digits(n).len() >= 1,
    decreases n,
{
    if n >= 10 {
        lemma_decimal_nonempty(n / 10);
    }
}

proof fn lemma_decimal_len(n: nat)
    ensures
        n < 10 ==> decimal_digits(n).len() == 1,
        10 <= n < 100 ==> decimal_digits(n).len() == 2,
        100 <= n ==> decimal_digits(n).len() >= 3,
{
    lemma_decimal_nonempty(n);
    if n >= 10 {
        lemma_decimal_nonempty(n / 10);
        if n >= 100 {
            lemma_decimal_nonempty(n / 100);
            assert(decimal_digits(n / 10) == decimal_digits(n / 10 / 10).push(
                crate::strings::digit_char(n / 10 % 10),
            ));
        }
    }
}

/// The name of output file `index` of the input whose file stem is `stem`.
pub fn output_file_name(stem: &str, index: usize) -> (s: String)
    ensures
        s@ == output_name(stem@, index as nat),
{
    let digits = decimal(index);
    proof {
        lemma_decimal_nonempty(index as nat);
    }
    let mut s = String::from_str(stem);
    push_char(&mut s, '_');
    if index < 10 {
        push_char(&mut s, '0');
        push_char(&mut s, '0');
    } else if index < 100 {
        push_char(&mut s, '0');
    }
    proof {
        lemma_decimal_len(index as nat);
        reveal_strlit("_");
    }
    s.append(digits.as_str());
    s.append(".afp");
    proof {
        assert(s@ =~= output_name(stem@, index as nat));
    }
    s
}

} // verus!
