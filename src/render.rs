//! Rendering one task as a log line.

use vstd::prelude::*;
use vstd::utf8::valid_utf8;
use vstd::string::StringSliceAdditionalSpecFns;
use crate::task::{Task, comm_name};

verus! {

/// Decimal digits of `n`, most significant first, with no leading zeros.
pub open spec fn digits(n: nat) -> Seq<u8>
    decreases n,
{
    if n < 10 {
        seq![(48 + n) as u8]
    } else {
        digits(n / 10).push((48 + n % 10) as u8)
    }
}

/// Decimal text of `n`, with a leading minus sign when it is negative.
pub open spec fn decimal(n: int) -> Seq<u8> {
    if n < 0 {
        seq![45u8] + digits((-n) as nat)
    } else {
        digits(n as nat)
    }
}

/// One indentation column: a bar or a blank, then three blanks.
pub open spec fn column(bar: bool) -> Seq<u8> {
    seq![if bar { 124u8 } else { 32u8 }, 32u8, 32u8, 32u8]
}

/// The first `n` indentation columns, drawn from `mask`.
pub open spec fn columns(mask: Seq<bool>, n: int) -> Seq<u8>
    decreases n,
{
    if n <= 0 {
        Seq::empty()
    } else {
        columns(mask, n - 1) + column(mask[n - 1])
    }
}

/// The branch marker `|-- `.
pub open spec fn branch() -> Seq<u8> {
    seq![124u8, 45u8, 45u8, 32u8]
}

/// The indentation prefix of a line at depth `indent`.
pub open spec fn prefix(indent: nat, mask: Seq<bool>) -> Seq<u8> {
    if indent == 0 {
        Seq::empty()
    } else {
        columns(mask, indent - 1) + branch()
    }
}

/// What stands for the command name: the name itself where it is UTF-8,
/// else `unable to display`.
pub open spec fn name_field(comm: Seq<u8>) -> Seq<u8> {
    if valid_utf8(comm_name(comm)) {
        comm_name(comm)
    } else {
        "unable to display".spec_bytes()
    }
}

/// The whole log line of a task with command-name field `comm` and `pid`.
pub open spec fn line(comm: Seq<u8>, pid: int, indent: nat, mask: Seq<bool>) -> Seq<u8> {
    prefix(indent, mask) + name_field(comm) + seq![40u8] + decimal(pid) + seq![41u8, 10u8]
}

/// The log line of `task` at depth `indent` with continuation mask `mask`.
pub open spec fn task_line(task: Task, indent: nat, mask: Seq<bool>) -> Seq<u8> {
    line(task.comm@, task.pid as int, indent, mask)
}

/// Relies on core::str::from_utf8: it succeeds exactly on well-formed UTF-8.
#[verifier::external_body]
fn is_utf8(b: &[u8]) -> (r: bool)
    ensures
        r == valid_utf8(b@),
{
    core::str::from_utf8(b).is_ok()
}

/// The bytes of `s`.
pub fn bytes_of(s: &str) -> (r: Vec<u8>)
    ensures
        r@ == s.spec_bytes(),
{
    vstd::slice::slice_to_vec(s.as_bytes())
}

/// Appends the digits of `n` to `out`.
fn push_digits(n: u32, out: &mut Vec<u8>)
    ensures
        final(out)@ == old(out)@ + digits(n as nat),
    decreases n,
{
    if n >= 10 {
        push_digits(n / 10, out);
    }
    out.push(48u8 + (n % 10) as u8);
    assert(final(out)@ =~= old(out)@ + digits(n as nat));
}

/// Appends the decimal text of `n` to `out`.
pub fn push_decimal(n: i32, out: &mut Vec<u8>)
    ensures
        final(out)@ == old(out)@ + decimal(n as int),
{
    if n < 0 {
        out.push(45u8);
        let m: u32 = (-(n as i64)) as u32;
        push_digits(m, out);
        assert(final(out)@ =~= old(out)@ + decimal(n as int));
    } else {
        push_digits(n as u32, out);
    }
}

/// Renders `task` at depth `indent`: for each level above the last a bar
/// (where `bin_vec` says a sibling follows) or a blank and three blanks,
/// then `|-- `; then the command name, or `unable to display` where it is
/// not UTF-8; then the pid in parentheses and a newline.
pub fn print_task(task: &Task, indent: usize, bin_vec: &Vec<bool>) -> (r: Vec<u8>)
    requires
        indent <= bin_vec@.len() + 1,
    ensures
        r@ == task_line(*task, indent as nat, bin_vec@),
{
    let mut out: Vec<u8> = Vec::new();
    if indent > 0 {
        let mut i: usize = 0;
        while i < indent - 1
            invariant
                0 < indent <= bin_vec@.len() + 1,
                i <= indent - 1,
                out@ == columns(bin_vec@, i as int),
            decreases indent - 1 - i,
        {
            if bin_vec[i] {
                out.push(124u8);
            } else {
                out.push(32u8);
            }
            out.push(32u8);
            out.push(32u8);
            out.push(32u8);
            i = i + 1;
            assert(out@ =~= columns(bin_vec@, i as int));
        }
        out.push(124u8);
        out.push(45u8);
        out.push(45u8);
        out.push(32u8);
    }
    assert(out@ =~= prefix(indent as nat, bin_vec@));
    let name = task.command_name();
    let mut field = if is_utf8(name.as_slice()) {
        name
    } else {
        bytes_of("unable to display")
    };
    out.append(&mut field);
    out.push(40u8);
    push_decimal(task.pid, &mut out);
    out.push(41u8);
    out.push(10u8);
    assert(out@ =~= task_line(*task, indent as nat, bin_vec@));
    out
}

/// `n` columns take four bytes each, the `i`-th drawn from `mask[i]`.
pub proof fn lemma_columns_shape(mask: Seq<bool>, n: int)
    requires
        0 <= n <= mask.len(),
    ensures
        columns(mask, n).len() == 4 * n,
        forall|i: int|
            0 <= i < n ==> #[trigger] columns(mask, n).subrange(4 * i, 4 * i + 4) == column(mask[i]),
    decreases n,
{
    if n > 0 {
        lemma_columns_shape(mask, n - 1);
        let prev = columns(mask, n - 1);
        let c = columns(mask, n);
        assert(c == prev + column(mask[n - 1]));
        assert forall|i: int| 0 <= i < n implies #[trigger] c.subrange(4 * i, 4 * i + 4) == column(
            mask[i],
        ) by {
            if i < n - 1 {
                assert(c.subrange(4 * i, 4 * i + 4) =~= prev.subrange(4 * i, 4 * i + 4));
            } else {
                assert(c.subrange(4 * i, 4 * i + 4) =~= column(mask[n - 1]));
            }
        }
    }
}

/// A line at depth `d` of at least one starts with `4 * d` bytes of prefix:
/// for each level `i` above the last, `|` exactly where `mask[i]` says a
/// sibling follows (else a blank) and three blanks; then `|-- ` at offset
/// `4 * (d - 1)`. At depth 0 the prefix is empty.
pub proof fn lemma_prefix_shape(indent: nat, mask: Seq<bool>)
    requires
        indent <= mask.len() + 1,
    ensures
        prefix(indent, mask).len() == 4 * indent,
        indent == 0 ==> prefix(indent, mask) == Seq::<u8>::empty(),
        indent >= 1 ==> prefix(indent, mask).subrange(4 * (indent - 1), 4 * indent as int) == branch(),
        forall|i: int|
            0 <= i < indent - 1 ==> #[trigger] prefix(indent, mask).subrange(4 * i, 4 * i + 4)
                == column(mask[i]),
        forall|i: int|
            0 <= i < indent - 1 ==> (#[trigger] prefix(indent, mask)[4 * i] == 124u8 <==> mask[i]),
{
    if indent >= 1 {
        let n = indent - 1;
        lemma_columns_shape(mask, n);
        let cs = columns(mask, n);
        let p = prefix(indent, mask);
        assert(p == cs + branch());
        assert(p.subrange(4 * n, 4 * indent as int) =~= branch());
        assert forall|i: int| 0 <= i < indent - 1 implies #[trigger] p.subrange(4 * i, 4 * i + 4)
            == column(mask[i]) by {
            assert(p.subrange(4 * i, 4 * i + 4) =~= cs.subrange(4 * i, 4 * i + 4));
        }
        assert forall|i: int| 0 <= i < indent - 1 implies (#[trigger] p[4 * i] == 124u8 <==> mask[i]) by {
            assert(p.subrange(4 * i, 4 * i + 4) =~= cs.subrange(4 * i, 4 * i + 4));
            assert(cs.subrange(4 * i, 4 * i + 4) == column(mask[i]));
            assert(p[4 * i] == p.subrange(4 * i, 4 * i + 4)[0]);
        }
    }
}

} // verus!
