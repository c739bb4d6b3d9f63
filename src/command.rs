use vstd::prelude::*;
use vstd::slice::slice_to_vec;

verus! {

/// What one line of the command loop asks for.
#[derive(Debug, Clone, PartialEq, Eq)]
pub enum Command {
    /// `event`: a local event.
    Event,
    /// `clock`: show the current clock.
    Clock,
    /// `end`: shut down.
    End,
    /// Any other line: send to the process that the line names.
    Send(Vec<u8>),
}

/// `event`
pub open spec fn event_word() -> Seq<u8> {
    seq![101u8, 118, 101, 110, 116]
}

/// `clock`
pub open spec fn clock_word() -> Seq<u8> {
    seq![99u8, 108, 111, 99, 107]
}

/// `end`
pub open spec fn end_word() -> Seq<u8> {
    seq![101u8, 110, 100]
}

fn same_bytes(a: &[u8], b: &Vec<u8>) -> (r: bool)
    ensures
        r == (a@ == b@),
{
    if a.len() != b.len() {
        return false;
    }
    let mut i: usize = 0;
    while i < a.len()
        invariant
            a@.len() == b@.len(),
            i <= a@.len(),
            forall|k: int| 0 <= k < i ==> a@[k] == b@[k],
        decreases a@.len() - i,
    {
        if a[i] != b[i] {
            return false;
        }
        i += 1;
    }
    assert(a@ =~= b@);
    true
}

/// The command that a line (without its line break and surrounding blanks)
/// stands for.
pub fn parse_command(line: &[u8]) -> (r: Command)
    ensures
        r is Event <==> line@ == event_word(),
        r is Clock <==> line@ == clock_word(),
        r is End <==> line@ == end_word(),
        r is Send ==> r->Send_0@ == line@,
{
    let event: Vec<u8> = vec![101u8, 118, 101, 110, 116];
    let clock: Vec<u8> = vec![99u8, 108, 111, 99, 107];
    let end: Vec<u8> = vec![101u8, 110, 100];
    assert(event@ =~= event_word() && clock@ =~= clock_word() && end@ =~= end_word());
    assert(event_word() != clock_word() && event_word() != end_word() && clock_word()
        != end_word()) by {
        assert(event_word()[0] != clock_word()[0]);
        assert(event_word().len() != end_word().len());
        assert(clock_word().len() != end_word().len());
    }
    if same_bytes(line, &event) {
        Command::Event
    } else if same_bytes(line, &clock) {
        Command::Clock
    } else if same_bytes(line, &end) {
        Command::End
    } else {
        Command::Send(slice_to_vec(line))
    }
}

} // verus!
