use vstd::prelude::*;

use crate::entry::{fresh_entry, HostEntry, HostEntryView};
use crate::text::{
    first_space, keyword_is, parse_port, port_value, same_keyword, split_first_space,
    trim_spaces, trimmed,
};

verus! {

/// What the parser holds between two lines: the entries already finished, in
/// order, and the entry of the block that is still open, if any.
pub struct ParseState {
    pub done: Seq<HostEntryView>,
    pub current: Option<HostEntryView>,
}

/// The state before the first line.
pub open spec fn start_state() -> ParseState {
    ParseState { done: Seq::empty(), current: None }
}

/// The finished entries once the open block, if any, is finished too.
pub open spec fn closed(st: ParseState) -> Seq<HostEntryView> {
    match st.current {
        Some(e) => st.done.push(e),
        None => st.done,
    }
}

/// A trimmed line that carries a directive: it is not empty, not a comment,
/// and holds a space between its keyword and its value.
pub open spec fn is_directive_line(t: Seq<char>) -> bool {
    t.len() > 0 && t[0] != '#' && first_space(t) < t.len()
}

/// The keyword of a directive line: the text before its first space.
pub open spec fn keyword_of(t: Seq<char>) -> Seq<char> {
    t.subrange(0, first_space(t) as int)
}

/// The value of a directive line: the text after its first space, trimmed.
pub open spec fn value_of(t: Seq<char>) -> Seq<char> {
    trimmed(t.subrange(first_space(t) as int + 1, t.len() as int))
}

/// The entry `e` after the directive `kw value` of its block. Keywords are
/// matched without regard to the case of ASCII letters; a later directive
/// overwrites an earlier one; a port that does not parse and an unknown
/// keyword change nothing.
pub open spec fn apply_directive(e: HostEntryView, kw: Seq<char>, value: Seq<char>) -> HostEntryView {
    if same_keyword(kw, "hostname"@) {
        HostEntryView { host: value, ..e }
    } else if same_keyword(kw, "port"@) {
        match port_value(value) {
            Some(p) => HostEntryView { port: Some(p), ..e },
            None => e,
        }
    } else if same_keyword(kw, "user"@) {
        HostEntryView { user: value, ..e }
    } else if same_keyword(kw, "identityfile"@) {
        HostEntryView { identity_file: Some(value), ..e }
    } else {
        e
    }
}

/// The state after one more line. A `Host` line finishes the open block and
/// opens a new one; any other directive goes to the open block, and is
/// dropped when there is none.
pub open spec fn step(st: ParseState, line: Seq<char>) -> ParseState {
    let t = trimmed(line);
    if !is_directive_line(t) {
        st
    } else if same_keyword(keyword_of(t), "host"@) {
        ParseState { done: closed(st), current: Some(fresh_entry(value_of(t))) }
    } else {
        match st.current {
            Some(e) => ParseState {
                done: st.done,
                current: Some(apply_directive(e, keyword_of(t), value_of(t))),
            },
            None => st,
        }
    }
}

/// The state after all of `lines`, read in order.
pub open spec fn run(lines: Seq<Seq<char>>) -> ParseState
    decreases lines.len(),
{
    if lines.len() == 0 {
        start_state()
    } else {
        step(run(lines.drop_last()), lines.last())
    }
}

/// The entries that a configuration of `lines` describes, in file order.
pub open spec fn parsed(lines: Seq<Seq<char>>) -> Seq<HostEntryView> {
    closed(run(lines))
}

pub open spec fn entry_views(es: Seq<HostEntry>) -> Seq<HostEntryView> {
    es.map_values(|e: HostEntry| e@)
}

pub open spec fn line_views(ls: Seq<String>) -> Seq<Seq<char>> {
    ls.map_values(|l: String| l@)
}

pub open spec fn current_view(cur: Option<HostEntry>) -> Option<HostEntryView> {
    match cur {
        Some(e) => Some(e@),
        None => None,
    }
}

pub open spec fn state_of(es: Seq<HostEntry>, cur: Option<HostEntry>) -> ParseState {
    ParseState { done: entry_views(es), current: current_view(cur) }
}

impl HostEntry {
    /// Applies the directive `keyword value` to this entry.
    pub fn apply_directive(&mut self, keyword: &str, value: &str)
        ensures
            final(self)@ == apply_directive(old(self)@, keyword@, value@),
    {
        if keyword_is(keyword, "hostname") {
            self.host = String::from_str(value);
        } else if keyword_is(keyword, "port") {
            match parse_port(value) {
                Some(p) => {
                    self.port = Some(p);
                },
                None => {},
            }
        } else if keyword_is(keyword, "user") {
            self.user = String::from_str(value);
        } else if keyword_is(keyword, "identityfile") {
            self.identity_file = Some(String::from_str(value));
        }
    }
}

fn apply_line(entries: &mut Vec<HostEntry>, current: &mut Option<HostEntry>, line: &str)
    ensures
        state_of(final(entries)@, *final(current)) == step(state_of(old(entries)@, *old(current)), line@),
{
    let t = trim_spaces(line);
    if t.unicode_len() == 0 || t.get_char(0) == '#' {
        return;
    }
    match split_first_space(t) {
        None => {},
        Some((kw, rest)) => {
            let value = trim_spaces(rest);
            if keyword_is(kw, "host") {
                let prev = current.take();
                match prev {
                    Some(e) => {
                        entries.push(e);
                        assert(entry_views(entries@) =~= entry_views(old(entries)@).push(e@));
                    },
                    None => {},
                }
                *current = Some(HostEntry::new(String::from_str(value)));
            } else {
                let prev = current.take();
                match prev {
                    Some(mut e) => {
                        e.apply_directive(kw, value);
                        *current = Some(e);
                    },
                    None => {},
                }
            }
        },
    }
}

/// Parses the lines of an SSH client configuration into its host entries,
/// one per `Host` block, in the order of their `Host` lines.
pub fn parse_config_lines(lines: &Vec<String>) -> (r: Vec<HostEntry>)
    ensures
        entry_views(r@) == parsed(line_views(lines@)),
{
    let mut entries: Vec<HostEntry> = Vec::new();
    let mut current: Option<HostEntry> = None;
    let ghost all = line_views(lines@);
    assert(entry_views(entries@) =~= Seq::<HostEntryView>::empty());
    assert(all.subrange(0, 0) =~= Seq::<Seq<char>>::empty());
    let mut i: usize = 0;
    while i < lines.len()
        invariant
            i <= lines.len(),
            all == line_views(lines@),
            state_of(entries@, current) == run(all.subrange(0, i as int)),
        decreases lines.len() - i,
    {
        apply_line(&mut entries, &mut current, lines[i].as_str());
        assert(all.subrange(0, i + 1).drop_last() =~= all.subrange(0, i as int));
        i = i + 1;
    }
    assert(all.subrange(0, lines.len() as int) =~= all);
    match current {
        Some(e) => {
            let ghost before = entries@;
            entries.push(e);
            assert(entry_views(entries@) =~= entry_views(before).push(e@));
        },
        None => {},
    }
    entries
}

} // verus!
