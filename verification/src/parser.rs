//! The parser facade: pattern compilation, the parse entry point, and the
//! error types of the library.

use vstd::prelude::*;

use crate::matching::{
    capture_group_names, captures_all, captures_first, compile, decode_lossy, group_slots,
    lossy_decode, pattern_of, pattern_ok,
};
use crate::model::{
    event_fields, events_model, events_of_lines, keys_unique, line_emits, line_fails, line_rows,
    lines_of, no_line_fails, slots_distinct,
};

verus! {

/// How the parser treats each line, fixed at construction.
///
/// `multi_match`: with `false`, one search per line (the leftmost match);
/// with `true`, every non-overlapping match of the line, merged into one event.
///
/// `strict`: with `false`, a non-empty line the pattern does not match is
/// skipped silently; with `true`, it aborts the parse with a `NoMatchError`.
#[derive(Clone, Copy, PartialEq, Eq, Structural, Debug)]
pub struct ModeConfig {
    pub multi_match: bool,
    pub strict: bool,
}

/// The pattern text was not a valid pattern; raised by `Parser::new` only.
#[derive(Debug)]
pub struct PatternError {
    /// The offending pattern text.
    pub pattern: String,
}

/// In strict mode: a non-empty line the pattern did not match.
#[derive(Debug)]
pub struct NoMatchError {
    /// 1-based position of the offending line among the segments of the
    /// input buffer, counted from the top, empty segments included.
    pub line_number: usize,
    /// The offending line, decoded lossily.
    pub content: String,
}

/// One extracted field of an event: a capture-group name and the text it
/// captured on its line.
#[derive(PartialEq, Eq, Debug)]
pub struct Field {
    pub name: String,
    pub value: String,
}

impl Field {
    /// The field as a pair of character sequences.
    pub open spec fn pair(self) -> (Seq<char>, Seq<char>) {
        (self.name@, self.value@)
    }
}

/// The event of one parsed line: one field per named capture group of the
/// pattern, in group order. Names are distinct within an event; a group that
/// captured nothing on the line holds the empty string, never a missing key.
#[derive(PartialEq, Eq, Debug)]
pub struct Event {
    pub fields: Vec<Field>,
}

impl Event {
    /// The event's fields as name/value pairs of character sequences.
    pub open spec fn fields_view(self) -> Seq<(Seq<char>, Seq<char>)> {
        self.fields@.map_values(|f: Field| f.pair())
    }

    /// Looks a field up by name: some value exactly when the event holds a
    /// field of that name, and then a value the event pairs with it.
    pub fn get<'a>(&'a self, name: &str) -> (r: Option<&'a String>)
        ensures
            r is Some <==> exists|k: int|
                0 <= k < self.fields@.len() && (#[trigger] self.fields@[k]).name@ == name@,
            r is Some ==> exists|k: int|
                0 <= k < self.fields@.len() && (#[trigger] self.fields@[k]).name@ == name@
                    && r->Some_0@ == self.fields@[k].value@,
    {
        let needle = name.to_string();
        let mut i: usize = 0;
        while i < self.fields.len()
            invariant
                i <= self.fields@.len(),
                needle@ == name@,
                forall|k: int| 0 <= k < i ==> (#[trigger] self.fields@[k]).name@ != name@,
            decreases self.fields@.len() - i,
        {
            if self.fields[i].name == needle {
                return Some(&self.fields[i].value);
            }
            i += 1;
        }
        None
    }
}

/// A sequence of events as name/value pairs.
pub open spec fn events_view(evs: Seq<Event>) -> Seq<Seq<(Seq<char>, Seq<char>)>> {
    evs.map_values(|e: Event| e.fields_view())
}

/// Splits a byte buffer into lines and turns each non-empty matching line into
/// an event of named fields, under the policy fixed at construction.
#[derive(Debug)]
pub struct Parser {
    re: regex::bytes::Regex,
    names: Vec<Option<String>>,
    config: ModeConfig,
}

impl Parser {
    /// The pattern text this parser was compiled from.
    pub closed spec fn pattern(self) -> Seq<char> {
        pattern_of(self.re)
    }

    /// The mode this parser was constructed with.
    pub closed spec fn mode(self) -> ModeConfig {
        self.config
    }

    #[verifier::type_invariant]
    spec fn inv(self) -> bool {
        &&& self.names.deep_view() == group_slots(pattern_of(self.re))
        &&& slots_distinct(self.names.deep_view())
    }

    /// Compiles the pattern and fixes the mode. Returns the parser exactly
    /// when the pattern text is a valid pattern; the error carries the
    /// offending text.
    pub fn new(pattern: &str, config: ModeConfig) -> (r: Result<Parser, PatternError>)
        ensures
            r is Ok <==> pattern_ok(pattern@),
            r is Ok ==> r->Ok_0.pattern() == pattern@ && r->Ok_0.mode() == config,
            r is Err ==> r->Err_0.pattern@ == pattern@,
    {
        match compile(pattern) {
            Ok(re) => {
                let names = capture_group_names(&re);
                Ok(Parser { re, names, config })
            },
            Err(_) => Err(PatternError { pattern: pattern.to_string() }),
        }
    }

    /// The match rows of one line under this parser's mode.
    fn rows_for_line(&self, line: &[u8]) -> (r: Vec<Vec<Option<Vec<u8>>>>)
        ensures
            r.deep_view() == line_rows(self.pattern(), line@, self.mode().multi_match),
            forall|k: int|
                0 <= k < r@.len() ==> (#[trigger] r@[k])@.len() == group_slots(
                    self.pattern(),
                ).len(),
    {
        if self.config.multi_match {
            let r = captures_all(&self.re, line);
            proof {
                assert(forall|k: int|
                    0 <= k < r@.len() ==> (#[trigger] r@[k])@.len() == r.deep_view()[k].len());
            }
            r
        } else {
            match captures_first(&self.re, line) {
                Some(row) => {
                    let ghost rowv = row.deep_view();
                    let mut r: Vec<Vec<Option<Vec<u8>>>> = Vec::new();
                    r.push(row);
                    proof {
                        assert(r.deep_view() =~= seq![rowv]);
                        assert(r.deep_view() == line_rows(
                            self.pattern(),
                            line@,
                            self.mode().multi_match,
                        ));
                        assert(forall|k: int|
                            0 <= k < r@.len() ==> (#[trigger] r@[k])@.len()
                                == r.deep_view()[k].len());
                    }
                    r
                },
                None => {
                    let r: Vec<Vec<Option<Vec<u8>>>> = Vec::new();
                    proof {
                        assert(r.deep_view() =~= Seq::<Seq<Option<Seq<u8>>>>::empty());
                    }
                    r
                },
            }
        }
    }

    /// Builds the event of one line from its match rows: one field per named
    /// capture group, in group order, each value merged over the rows.
    fn build_event(&self, rows: &Vec<Vec<Option<Vec<u8>>>>) -> (ev: Event)
        requires
            forall|k: int|
                0 <= k < rows@.len() ==> (#[trigger] rows@[k])@.len() == group_slots(
                    self.pattern(),
                ).len(),
        ensures
            ev.fields_view() == event_fields(group_slots(self.pattern()), rows.deep_view()),
    {
        proof {
            use_type_invariant(&*self);
        }
        let ghost slots = group_slots(self.pattern());
        let ghost rowsv = rows.deep_view();
        let mut fields: Vec<Field> = Vec::new();
        let mut i: usize = 0;
        while i < self.names.len()
            invariant
                i <= self.names@.len(),
                self.names.deep_view() == slots,
                rowsv == rows.deep_view(),
                forall|k: int|
                    0 <= k < rows@.len() ==> (#[trigger] rows@[k])@.len() == slots.len(),
                fields@.map_values(|f: Field| f.pair()) == event_fields(
                    slots.take(i as int),
                    rowsv,
                ),
            decreases self.names@.len() - i,
        {
            let ghost fore = fields@.map_values(|f: Field| f.pair());
            match &self.names[i] {
                Some(name) => {
                    let value = merged_value_exec(rows, i);
                    let field = Field { name: name.clone(), value };
                    proof {
                        assert(slots[i as int] == self.names.deep_view()[i as int]);
                        assert(slots[i as int] == Some(name@));
                    }
                    fields.push(field);
                    proof {
                        assert(fields@.map_values(|f: Field| f.pair()) =~= fore.push(
                            (name@, crate::model::merged_value(rowsv, i as int)),
                        ));
                    }
                },
                None => {
                    proof {
                        assert(slots[i as int] == self.names.deep_view()[i as int]);
                        assert(slots[i as int] is None);
                    }
                },
            }
            i += 1;
            proof {
                assert(slots.take(i as int).drop_last() =~= slots.take(i as int - 1));
                assert(slots.take(i as int).last() == slots[i as int - 1]);
            }
        }
        proof {
            assert(slots.take(i as int) =~= slots);
        }
        Event { fields }
    }

    /// Parses a whole byte buffer: splits it on the newline byte, skips empty
    /// lines, and yields one event per matching non-empty line, in buffer
    /// order. In lenient mode a non-matching line is skipped and the call
    /// always succeeds; in strict mode the first non-matching non-empty line
    /// aborts the parse with its 1-based line number and its content, and the
    /// call succeeds exactly when every non-empty line matches.
    pub fn parse(&self, input: &[u8]) -> (r: Result<Vec<Event>, NoMatchError>)
        ensures
            r is Ok ==> events_view(r->Ok_0@) == events_model(
                self.pattern(),
                input@,
                self.mode().multi_match,
            ),
            r is Ok ==> forall|n: int|
                0 <= n < r->Ok_0@.len() ==> keys_unique(#[trigger] events_view(r->Ok_0@)[n]),
            !self.mode().strict ==> r is Ok,
            self.mode().strict ==> (r is Ok <==> no_line_fails(
                self.pattern(),
                lines_of(input@),
                self.mode().multi_match,
            )),
            r is Err ==> ({
                let lines = lines_of(input@);
                let k = r->Err_0.line_number - 1;
                &&& self.mode().strict
                &&& 1 <= r->Err_0.line_number <= lines.len()
                &&& line_fails(self.pattern(), lines[k as int], self.mode().multi_match)
                &&& (forall|i: int|
                    0 <= i < k ==> !line_fails(self.pattern(), lines[i], self.mode().multi_match))
                &&& r->Err_0.content@ == lossy_decode(lines[k as int])
            }),
    {
        proof {
            use_type_invariant(&*self);
        }
        let ghost p = self.pattern();
        let ghost multi = self.mode().multi_match;
        let ghost lines = lines_of(input@);
        let segments = split_segments(input);
        let mut out: Vec<Event> = Vec::new();
        let mut j: usize = 0;
        while j < segments.len()
            invariant
                j <= segments@.len(),
                lines == lines_of(input@),
                segments.deep_view() == lines,
                p == self.pattern(),
                multi == self.mode().multi_match,
                events_view(out@) == events_of_lines(p, lines.take(j as int), multi),
                slots_distinct(group_slots(p)),
                forall|n: int|
                    0 <= n < out@.len() ==> keys_unique(#[trigger] events_view(out@)[n]),
                self.mode().strict ==> forall|i: int| 0 <= i < j ==> !line_fails(
                    p,
                    lines[i],
                    multi,
                ),
            decreases segments@.len() - j,
        {
            let ghost fore = events_view(out@);
            let seg = &segments[j];
            proof {
                assert(lines[j as int] == segments.deep_view()[j as int]);
                assert(segments.deep_view()[j as int] =~= seg@);
            }
            if seg.len() > 0 {
                let rows = self.rows_for_line(seg.as_slice());
                if rows.len() == 0 {
                    if self.config.strict {
                        let content = decode_lossy(seg.as_slice());
                        proof {
                            assert(0 <= j < lines.len());
                            assert(line_fails(p, lines[j as int], multi));
                            assert(!no_line_fails(p, lines, multi));
                            assert(content@ == lossy_decode(lines[j as int]));
                        }
                        return Err(NoMatchError { line_number: j + 1, content });
                    }
                } else {
                    let ev = self.build_event(&rows);
                    proof {
                        crate::model::lemma_event_keys_unique(group_slots(p), rows.deep_view());
                    }
                    out.push(ev);
                    proof {
                        assert(line_emits(p, lines[j as int], multi));
                        assert(events_view(out@) =~= fore.push(ev.fields_view()));
                    }
                }
            }
            j += 1;
            proof {
                assert(lines.take(j as int).drop_last() =~= lines.take(j as int - 1));
                assert(lines.take(j as int).last() == lines[j as int - 1]);
            }
        }
        proof {
            assert(lines.take(j as int) =~= lines);
        }
        Ok(out)
    }
}

/// The segments of the buffer, split on the newline byte: one more segment
/// than there are newlines, in buffer order, empty segments included.
fn split_segments(input: &[u8]) -> (r: Vec<Vec<u8>>)
    ensures
        r.deep_view() == lines_of(input@),
{
    let mut segs: Vec<Vec<u8>> = Vec::new();
    let mut cur: Vec<u8> = Vec::new();
    let mut i: usize = 0;
    while i < input.len()
        invariant
            i <= input@.len(),
            segs.deep_view().push(cur@) == lines_of(input@.take(i as int)),
        decreases input@.len() - i,
    {
        let ghost fore = segs.deep_view();
        let ghost curv = cur@;
        let b: u8 = input[i];
        proof {
            crate::model::lemma_lines_of_push(input@.take(i as int), b);
            assert(input@.take(i as int + 1) =~= input@.take(i as int).push(b));
        }
        if b == 10 {
            segs.push(cur);
            cur = Vec::new();
            proof {
                assert(segs.deep_view() =~~= fore.push(curv));
                assert(segs.deep_view().push(cur@) =~~= lines_of(input@.take(i as int)).push(
                    Seq::<u8>::empty(),
                ));
            }
        } else {
            cur.push(b);
            proof {
                assert(fore.push(curv).len() - 1 == fore.len());
                assert(segs.deep_view().push(cur@) =~~= fore.push(curv).update(
                    fore.len() as int,
                    curv.push(b),
                ));
                assert(lines_of(input@.take(i as int)).last() == curv);
            }
        }
        i += 1;
    }
    proof {
        assert(input@.take(i as int) =~= input@);
    }
    segs.push(cur);
    proof {
        assert(segs.deep_view() =~~= lines_of(input@));
    }
    segs
}

/// The merged value of capture-group `slot` over the match rows of one line:
/// the last row in which the group participated decides, and a group that
/// participated in no row yields the empty string.
fn merged_value_exec(rows: &Vec<Vec<Option<Vec<u8>>>>, slot: usize) -> (v: String)
    requires
        forall|k: int| 0 <= k < rows@.len() ==> slot < (#[trigger] rows@[k])@.len(),
    ensures
        v@ == crate::model::merged_value(rows.deep_view(), slot as int),
{
    let ghost full = rows.deep_view();
    let mut j: usize = rows.len();
    proof {
        assert(full.take(rows@.len() as int) =~= full);
    }
    while j > 0
        invariant
            j <= rows@.len(),
            full == rows.deep_view(),
            forall|k: int| 0 <= k < rows@.len() ==> slot < (#[trigger] rows@[k])@.len(),
            crate::model::merged_value(full, slot as int) == crate::model::merged_value(
                full.take(j as int),
                slot as int,
            ),
        decreases j,
    {
        proof {
            assert(full.take(j as int).last() == full[j as int - 1]);
            assert(full[j as int - 1] == rows@[j as int - 1].deep_view());
            assert(full[j as int - 1][slot as int] == rows@[j as int - 1]@[slot as int].deep_view());
        }
        match &rows[j - 1][slot] {
            Some(bytes) => {
                proof {
                    assert(bytes.deep_view() =~= bytes@);
                    assert(full.take(j as int)[j as int - 1][slot as int] == Some(bytes@));
                    assert(crate::model::merged_value(full.take(j as int), slot as int)
                        == lossy_decode(bytes@));
                }
                return decode_lossy(bytes.as_slice());
            },
            None => {},
        }
        j -= 1;
        proof {
            assert(full.take(j as int + 1).drop_last() =~= full.take(j as int));
        }
    }
    proof {
        assert(full.take(0) =~= Seq::<Seq<Option<Seq<u8>>>>::empty());
    }
    String::new()
}

} // verus!
