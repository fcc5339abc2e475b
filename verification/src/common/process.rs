//! This process's own memory and processor use, from the kernel's text files.

use vstd::prelude::*;

use crate::text;

verus! {

/// The number a list's element `i` spells, or zero.
pub open spec fn field_number(fields: Seq<Seq<char>>, i: int) -> nat {
    if i < fields.len() && text::number(fields[i], u64::MAX as nat) is Some {
        text::number(fields[i], u64::MAX as nat)->Some_0
    } else {
        0
    }
}

fn number_at(fields: &Vec<Vec<char>>, i: usize) -> (r: u64)
    ensures
        r == field_number(text::views(fields@), i as int),
{
    if i < fields.len() {
        if let Some(v) = text::parse_number(fields[i].as_slice(), u64::MAX) {
            return v;
        }
    }
    0
}

/// Resident bytes from the text of `/proc/self/statm`: its second field,
/// times the page size (saturating); zero where it cannot be read.
pub fn process_memory_bytes(statm: &str) -> (r: u64)
    ensures
        ({
            let bytes = field_number(text::words(statm@), 1) * 4096;
            r == if bytes <= u64::MAX {
                bytes
            } else {
                u64::MAX as nat
            }
        }),
{
    let cs = text::chars(statm);
    let fields = text::split_words(cs.as_slice());
    let pages: u64 = number_at(&fields, 1);
    if pages <= u64::MAX / 4096 {
        pages * 4096
    } else {
        u64::MAX
    }
}

/// What follows the last closing parenthesis, or all of it.
pub open spec fn after_comm(s: Seq<char>) -> Seq<char> {
    text::split(s, ')').last()
}

/// Processor time (user and kernel) in hundredths of a second, from the text of
/// `/proc/self/stat`: the two tick counts after the command name, at a hundred
/// ticks a second.
pub fn process_cpu_seconds_total(stat: &str) -> (r: u64)
    ensures
        ({
            let fields = text::words(after_comm(stat@));
            let ticks = field_number(fields, 11) + field_number(fields, 12);
            r == if ticks <= u64::MAX {
                ticks
            } else {
                u64::MAX as nat
            }
        }),
{
    let cs = text::chars(stat);
    let parts = text::split_at_char(cs.as_slice(), ')');
    proof {
        lemma_split_nonempty(stat@, ')');
        assert(text::views(parts@).len() == parts@.len());
    }
    let last: usize = parts.len() - 1;
    let fields = text::split_words(parts[last].as_slice());
    let utime: u64 = number_at(&fields, 11);
    let stime: u64 = number_at(&fields, 12);
    utime.saturating_add(stime)
}

proof fn lemma_split_nonempty(s: Seq<char>, c: char)
    ensures
        text::split(s, c).len() > 0,
{
}

/// Law: what follows a process's name in parentheses is what stands behind the
/// last one that closes, however many the name itself holds.
pub proof fn law_after_comm(a: Seq<char>, b: Seq<char>)
    requires
        !b.contains(')'),
    ensures
        after_comm(a + seq![')'] + b) == b,
        after_comm(b) == b,
    decreases a.len(),
{
    text::lemma_joined_split(seq![b], ')');
    assert(text::joined(seq![b], seq![')']) == b);
    lemma_last_piece(a, b);
}

proof fn lemma_last_piece(a: Seq<char>, b: Seq<char>)
    requires
        !b.contains(')'),
    ensures
        text::split(a + seq![')'] + b, ')').last() == b,
{
    let p = text::split(a, ')');
    text::lemma_split_pieces(a, ')');
    text::lemma_split_joined(a, ')');
    let q = p.push(b);
    assert(q.drop_last() =~= p);
    assert(text::joined(q, seq![')']) == a + seq![')'] + b);
    assert forall|k: int| 0 <= k < q.len() implies !(#[trigger] q[k]).contains(')') by {
        if k < p.len() {
            assert(q[k] == p[k]);
        }
    }
    text::lemma_joined_split(q, ')');
}

/// Law: a field is the number it spells, and zero where it spells none or is
/// not there.
pub proof fn law_field_number(fields: Seq<Seq<char>>, i: int, n: u64)
    requires
        0 <= i,
    ensures
        i < fields.len() && fields[i] == text::decimal(n as nat) ==> field_number(fields, i) == n,
        i >= fields.len() ==> field_number(fields, i) == 0,
        i < fields.len() && text::number(fields[i], u64::MAX as nat) is None ==> field_number(
            fields,
            i,
        ) == 0,
{
    text::lemma_decimal_number(n as nat, u64::MAX as nat);
}

} // verus!
