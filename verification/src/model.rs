//! The mathematical model of parsing: line segmentation, the per-line match
//! rows, the merge rule that turns match rows into an event's fields, and the
//! sequence of events a whole input yields.

use vstd::prelude::*;

use crate::matching::{all_matches, first_match, group_slots, lossy_decode};

verus! {

/// The segments of `b` split on the newline byte 0x0A: one more segment than
/// there are newlines, in buffer order, empty segments included. Carriage
/// returns are ordinary bytes and stay inside their segment.
pub open spec fn lines_of(b: Seq<u8>) -> Seq<Seq<u8>>
    decreases b.len(),
{
    if b.len() == 0 {
        seq![Seq::<u8>::empty()]
    } else if b[0] == 10u8 {
        seq![Seq::<u8>::empty()] + lines_of(b.drop_first())
    } else {
        let rest = lines_of(b.drop_first());
        seq![seq![b[0]] + rest[0]] + rest.drop_first()
    }
}

/// A split yields at least one segment: the buffer's last line, possibly empty.
pub proof fn lemma_lines_of_nonempty(b: Seq<u8>)
    ensures
        lines_of(b).len() >= 1,
    decreases b.len(),
{
    if b.len() == 0 {
    } else if b[0] == 10u8 {
        lemma_lines_of_nonempty(b.drop_first());
    } else {
        lemma_lines_of_nonempty(b.drop_first());
    }
}

/// Appending one byte either starts a fresh empty segment (a newline) or
/// extends the last segment (any other byte).
pub proof fn lemma_lines_of_push(b: Seq<u8>, x: u8)
    ensures
        x == 10u8 ==> lines_of(b.push(x)) == lines_of(b).push(Seq::<u8>::empty()),
        x != 10u8 ==> lines_of(b.push(x)) == lines_of(b).update(
            lines_of(b).len() - 1,
            lines_of(b).last().push(x),
        ),
    decreases b.len(),
{
    lemma_lines_of_nonempty(b);
    if b.len() == 0 {
        assert(b.push(x).drop_first() =~= Seq::<u8>::empty());
        assert(lines_of(b.push(x).drop_first()) == seq![Seq::<u8>::empty()]);
        if x == 10u8 {
            assert(lines_of(b.push(x)) =~= lines_of(b).push(Seq::<u8>::empty()));
        } else {
            assert(seq![b.push(x)[0]] + lines_of(Seq::<u8>::empty())[0] =~= Seq::<u8>::empty().push(
                x,
            ));
            assert(lines_of(b.push(x)) =~= lines_of(b).update(0, lines_of(b).last().push(x)));
        }
    } else {
        let bd = b.drop_first();
        lemma_lines_of_nonempty(bd);
        lemma_lines_of_push(bd, x);
        assert(b.push(x).drop_first() =~= bd.push(x));
        assert(b.push(x)[0] == b[0]);
        let rest = lines_of(bd);
        if b[0] == 10u8 {
            if x == 10u8 {
                assert(lines_of(b.push(x)) =~= lines_of(b).push(Seq::<u8>::empty()));
            } else {
                assert(lines_of(b).last() == rest.last());
                assert(lines_of(b.push(x)) =~= lines_of(b).update(
                    lines_of(b).len() - 1,
                    lines_of(b).last().push(x),
                ));
            }
        } else {
            if x == 10u8 {
                let restx = rest.push(Seq::<u8>::empty());
                assert(restx[0] == rest[0]);
                assert(restx.drop_first() =~= rest.drop_first().push(Seq::<u8>::empty()));
                assert(lines_of(b.push(x)) =~= lines_of(b).push(Seq::<u8>::empty()));
            } else {
                let m = rest.len();
                let restx = rest.update(m - 1, rest.last().push(x));
                if m == 1 {
                    assert(restx[0] == rest[0].push(x));
                    assert(seq![b[0]] + rest[0].push(x) =~= (seq![b[0]] + rest[0]).push(x));
                    assert(restx.drop_first() =~= rest.drop_first());
                    assert(lines_of(b.push(x)) =~= lines_of(b).update(
                        lines_of(b).len() - 1,
                        lines_of(b).last().push(x),
                    ));
                } else {
                    assert(restx[0] == rest[0]);
                    assert(restx.drop_first() =~= rest.drop_first().update(
                        m - 2,
                        rest.last().push(x),
                    ));
                    assert(lines_of(b).last() == rest.last());
                    assert(lines_of(b.push(x)) =~= lines_of(b).update(
                        lines_of(b).len() - 1,
                        lines_of(b).last().push(x),
                    ));
                }
            }
        }
    }
}

/// The match rows of one line: in multi-match mode every non-overlapping
/// match, otherwise the leftmost match alone (no row when the line does not
/// match).
pub open spec fn line_rows(p: Seq<char>, line: Seq<u8>, multi: bool) -> Seq<Seq<Option<Seq<u8>>>> {
    if multi {
        all_matches(p, line)
    } else {
        match first_match(p, line) {
            Some(row) => seq![row],
            None => Seq::empty(),
        }
    }
}

/// Whether the pattern matches the line at least once under the given mode.
pub open spec fn line_matched(p: Seq<char>, line: Seq<u8>, multi: bool) -> bool {
    line_rows(p, line, multi).len() != 0
}

/// A line yields an event exactly when it is non-empty and matched.
pub open spec fn line_emits(p: Seq<char>, line: Seq<u8>, multi: bool) -> bool {
    line.len() != 0 && line_matched(p, line, multi)
}

/// In strict mode, a line aborts the parse exactly when it is non-empty and
/// unmatched.
pub open spec fn line_fails(p: Seq<char>, line: Seq<u8>, multi: bool) -> bool {
    line.len() != 0 && !line_matched(p, line, multi)
}

/// The value of capture-group `slot` merged over the match rows of one line:
/// the bytes of the last row in which the group participated, decoded lossily,
/// or the empty string when it participated in none.
pub open spec fn merged_value(rows: Seq<Seq<Option<Seq<u8>>>>, slot: int) -> Seq<char>
    decreases rows.len(),
{
    if rows.len() == 0 {
        Seq::<char>::empty()
    } else if rows.last()[slot] is Some {
        lossy_decode(rows.last()[slot]->Some_0)
    } else {
        merged_value(rows.drop_last(), slot)
    }
}

/// Overwrite on merge: when the group participated in the line's last match
/// row, that row's captured bytes decide the merged value, whatever earlier
/// rows captured; when it did not, the earlier rows decide alone.
pub proof fn lemma_merge_last_wins(rows: Seq<Seq<Option<Seq<u8>>>>, slot: int)
    requires
        rows.len() > 0,
    ensures
        rows.last()[slot] is Some ==> merged_value(rows, slot) == lossy_decode(
            rows.last()[slot]->Some_0,
        ),
        rows.last()[slot] is None ==> merged_value(rows, slot) == merged_value(
            rows.drop_last(),
            slot,
        ),
{
}

/// The fields of one event: one `(name, value)` pair for every named
/// capture-group slot, in slot order, the value merged over the line's match
/// rows. Every named group yields a field; a group that captured nothing has
/// the empty string, never a missing key.
pub open spec fn event_fields(slots: Seq<Option<Seq<char>>>, rows: Seq<Seq<Option<Seq<u8>>>>) -> Seq<
    (Seq<char>, Seq<char>),
>
    decreases slots.len(),
{
    if slots.len() == 0 {
        Seq::empty()
    } else {
        let fore = event_fields(slots.drop_last(), rows);
        match slots.last() {
            Some(name) => fore.push((name, merged_value(rows, slots.len() - 1))),
            None => fore,
        }
    }
}

/// The events of a sequence of lines: one per line that emits, in line order.
pub open spec fn events_of_lines(p: Seq<char>, lines: Seq<Seq<u8>>, multi: bool) -> Seq<
    Seq<(Seq<char>, Seq<char>)>,
>
    decreases lines.len(),
{
    if lines.len() == 0 {
        Seq::empty()
    } else {
        let fore = events_of_lines(p, lines.drop_last(), multi);
        if line_emits(p, lines.last(), multi) {
            fore.push(event_fields(group_slots(p), line_rows(p, lines.last(), multi)))
        } else {
            fore
        }
    }
}

/// What parsing a whole buffer yields: the events of its newline-split lines.
pub open spec fn events_model(p: Seq<char>, input: Seq<u8>, multi: bool) -> Seq<
    Seq<(Seq<char>, Seq<char>)>,
> {
    events_of_lines(p, lines_of(input), multi)
}

/// No non-empty line of `lines` is left unmatched.
pub open spec fn no_line_fails(p: Seq<char>, lines: Seq<Seq<u8>>, multi: bool) -> bool {
    forall|i: int| 0 <= i < lines.len() ==> !line_fails(p, lines[i], multi)
}

/// The number of non-empty lines.
pub open spec fn count_nonempty(lines: Seq<Seq<u8>>) -> int
    decreases lines.len(),
{
    if lines.len() == 0 {
        0
    } else {
        count_nonempty(lines.drop_last()) + if lines.last().len() != 0 {
            1int
        } else {
            0int
        }
    }
}

/// Line count invariant: a sequence of lines yields at most one event per
/// non-empty line, and exactly one per non-empty line when every non-empty
/// line matches.
pub proof fn lemma_event_count(p: Seq<char>, lines: Seq<Seq<u8>>, multi: bool)
    ensures
        events_of_lines(p, lines, multi).len() <= count_nonempty(lines),
        count_nonempty(lines) <= lines.len(),
        (forall|i: int|
            0 <= i < lines.len() && lines[i].len() != 0 ==> line_matched(p, lines[i], multi))
            ==> events_of_lines(p, lines, multi).len() == count_nonempty(lines),
    decreases lines.len(),
{
    if lines.len() == 0 {
    } else {
        lemma_event_count(p, lines.drop_last(), multi);
        assert(forall|i: int|
            0 <= i < lines.drop_last().len() ==> lines.drop_last()[i] == lines[i]);
    }
}

/// Empty-line skipping: an empty segment yields no event, and never fails,
/// in either mode.
pub proof fn lemma_empty_line_skipped(p: Seq<char>, lines: Seq<Seq<u8>>, multi: bool)
    ensures
        events_of_lines(p, lines.push(Seq::<u8>::empty()), multi) == events_of_lines(
            p,
            lines,
            multi,
        ),
        !line_fails(p, Seq::<u8>::empty(), multi),
{
    assert(lines.push(Seq::<u8>::empty()).drop_last() =~= lines);
}

/// Idempotence: what a parse returns is a function of the pattern, the mode
/// and the input alone, so two runs of the same parser over the same input
/// yield structurally equal event sequences.
pub proof fn lemma_parse_idempotent(
    p: Seq<char>,
    input: Seq<u8>,
    multi: bool,
    first_run: Seq<Seq<(Seq<char>, Seq<char>)>>,
    second_run: Seq<Seq<(Seq<char>, Seq<char>)>>,
)
    requires
        first_run == events_model(p, input, multi),
        second_run == events_model(p, input, multi),
    ensures
        first_run == second_run,
{
}

/// Field completeness: an event's field names are exactly the pattern's named
/// capture groups, in slot order, whatever the line's match rows hold.
pub proof fn lemma_field_completeness(
    slots: Seq<Option<Seq<char>>>,
    rows: Seq<Seq<Option<Seq<u8>>>>,
)
    ensures
        event_fields(slots, rows).map_values(|f: (Seq<char>, Seq<char>)| f.0) == named_of(slots),
    decreases slots.len(),
{
    if slots.len() == 0 {
        assert(event_fields(slots, rows).map_values(|f: (Seq<char>, Seq<char>)| f.0)
            =~= named_of(slots));
    } else {
        lemma_field_completeness(slots.drop_last(), rows);
        assert(event_fields(slots, rows).map_values(|f: (Seq<char>, Seq<char>)| f.0)
            =~= named_of(slots));
    }
}

/// The names of the named slots, in slot order.
pub open spec fn named_of(slots: Seq<Option<Seq<char>>>) -> Seq<Seq<char>>
    decreases slots.len(),
{
    if slots.len() == 0 {
        Seq::empty()
    } else {
        match slots.last() {
            Some(name) => named_of(slots.drop_last()).push(name),
            None => named_of(slots.drop_last()),
        }
    }
}

/// The named slots carry pairwise distinct names; true of every compiled
/// pattern, since a duplicate capture group name is a compile error.
pub open spec fn slots_distinct(slots: Seq<Option<Seq<char>>>) -> bool {
    forall|i: int, j: int|
        0 <= i < j < slots.len() && #[trigger] slots[i] is Some && #[trigger] slots[j] is Some
            ==> slots[i] != slots[j]
}

/// The field names of one event are pairwise distinct.
pub open spec fn keys_unique(ev: Seq<(Seq<char>, Seq<char>)>) -> bool {
    forall|i: int, j: int| 0 <= i < j < ev.len() ==> (#[trigger] ev[i]).0 != (#[trigger] ev[j]).0
}

/// Key uniqueness: with distinct named slots — what every compiled pattern
/// has — an event's field names are distinct.
pub proof fn lemma_event_keys_unique(slots: Seq<Option<Seq<char>>>, rows: Seq<Seq<Option<Seq<u8>>>>)
    requires
        slots_distinct(slots),
    ensures
        keys_unique(event_fields(slots, rows)),
    decreases slots.len(),
{
    if slots.len() == 0 {
    } else {
        let fore = slots.drop_last();
        assert(slots_distinct(fore)) by {
            assert(forall|i: int| 0 <= i < fore.len() ==> fore[i] == slots[i]);
        }
        lemma_event_keys_unique(fore, rows);
        match slots.last() {
            Some(name) => {
                lemma_named_membership(fore, rows);
                assert(forall|i: int|
                    0 <= i < event_fields(fore, rows).len() ==> (#[trigger] event_fields(
                        fore,
                        rows,
                    )[i]).0 != name) by {
                    assert forall|i: int| 0 <= i < event_fields(fore, rows).len() implies (
                    #[trigger] event_fields(fore, rows)[i]).0 != name by {
                        let k = choose|k: int|
                            0 <= k < fore.len() && fore[k] == Some(
                                #[trigger] event_fields(fore, rows)[i].0,
                            );
                        assert(slots[k] == fore[k]);
                        assert(slots[slots.len() - 1] == Some(name));
                    }
                }
            },
            None => {},
        }
    }
}

/// Every field name of an event names some slot.
proof fn lemma_named_membership(slots: Seq<Option<Seq<char>>>, rows: Seq<Seq<Option<Seq<u8>>>>)
    ensures
        forall|i: int|
            0 <= i < event_fields(slots, rows).len() ==> exists|k: int|
                0 <= k < slots.len() && slots[k] == Some(
                    (#[trigger] event_fields(slots, rows)[i]).0,
                ),
    decreases slots.len(),
{
    if slots.len() == 0 {
    } else {
        lemma_named_membership(slots.drop_last(), rows);
        let fore = slots.drop_last();
        assert forall|i: int| 0 <= i < event_fields(slots, rows).len() implies exists|k: int|
            0 <= k < slots.len() && slots[k] == Some(
                (#[trigger] event_fields(slots, rows)[i]).0,
            ) by {
            match slots.last() {
                Some(name) => {
                    if i < event_fields(fore, rows).len() {
                        let k = choose|k: int|
                            0 <= k < fore.len() && fore[k] == Some(event_fields(fore, rows)[i].0);
                        assert(slots[k] == fore[k]);
                    } else {
                        assert(slots[slots.len() - 1] == Some(name));
                    }
                },
                None => {
                    let k = choose|k: int|
                        0 <= k < fore.len() && fore[k] == Some(event_fields(fore, rows)[i].0);
                    assert(slots[k] == fore[k]);
                },
            }
        }
    }
}

} // verus!
