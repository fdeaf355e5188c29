//! The virtual microphone: the module that provides it, and its removal.
use vstd::prelude::*;

use crate::text::{
    apart, chars, contains, contains_word, first_word, law_first_word,
    law_text_is_found_where_it_is_a_part, number_in, occurs, occurs_as_word, parse_number, parts,
    skip_to, unbroken,
};

verus! {

/// A virtual source that applications see as a normal microphone.
pub struct VirtMic {
    /// Name of its node.
    pub node_name: String,
}

/// What a call of the sound server's control tool came to.
pub struct ToolReply {
    /// It reported success.
    pub success: bool,
    /// What it printed.
    pub stdout: String,
    /// What it complained.
    pub stderr: String,
}

/// Why there is no virtual microphone.
#[derive(Debug)]
pub enum MicError {
    /// The control tool could not be run.
    NoTool,
    /// The module could not be loaded; with what the tool complained.
    LoadFailed(String),
    /// The tool did not print the index of the module.
    BadIndex,
}

/// The first position of a line break from `from` on; the length of `s` if there is none.
pub open spec fn line_end(s: Seq<char>, from: int) -> int
    decreases s.len() - from,
{
    if from < 0 || from >= s.len() || s[from] == '\n' {
        from
    } else {
        line_end(s, from + 1)
    }
}

/// The lines of `s` from position `from` on.
pub open spec fn lines_from(s: Seq<char>, from: int) -> Seq<Seq<char>>
    decreases s.len() - from,
{
    let end = line_end(s, from);
    if from < 0 || from > end || end > s.len() {
        Seq::empty()
    } else if end == s.len() {
        seq![s.subrange(from, end)]
    } else {
        seq![s.subrange(from, end)] + lines_from(s, end + 1)
    }
}

/// A line of the module list is about a null sink with exactly the name `name`.
pub open spec fn is_stale(line: Seq<char>, name: Seq<char>) -> bool {
    occurs(line, "module-null-sink"@) && occurs_as_word(line, "sink_name="@ + name)
}

/// The indices of the modules to unload, of those that `lines` list.
pub open spec fn stale_indices(lines: Seq<Seq<char>>, name: Seq<char>) -> Seq<Seq<char>>
    decreases lines.len(),
{
    if lines.len() == 0 {
        Seq::empty()
    } else if is_stale(lines[0], name) {
        seq![first_word(lines[0])] + stale_indices(lines.skip(1), name)
    } else {
        stale_indices(lines.skip(1), name)
    }
}

/// `index` is the first word of a line about a null sink of the name `name`.
pub open spec fn named_index(lines: Seq<Seq<char>>, name: Seq<char>, index: Seq<char>) -> bool {
    exists|j: int|
        0 <= j < lines.len() && #[trigger] is_stale(lines[j], name) && first_word(lines[j]) == index
}

/// Cleaning up takes exactly the modules of this name: every index comes from a line about a
/// null sink of the name, and every such line's index is there.
pub proof fn law_cleanup_takes_exactly_the_named(lines: Seq<Seq<char>>, name: Seq<char>)
    ensures
        forall|k: int|
            0 <= k < stale_indices(lines, name).len() ==> named_index(
                lines,
                name,
                #[trigger] stale_indices(lines, name)[k],
            ),
        forall|j: int|
            0 <= j < lines.len() && #[trigger] is_stale(lines[j], name) ==> stale_indices(
                lines,
                name,
            ).contains(first_word(lines[j])),
    decreases lines.len(),
{
    if lines.len() > 0 {
        let rest = lines.skip(1);
        let tail = stale_indices(rest, name);
        let all = stale_indices(lines, name);
        law_cleanup_takes_exactly_the_named(rest, name);
        let lead: int = if is_stale(lines[0], name) {
            1
        } else {
            0
        };
        assert forall|k: int| 0 <= k < all.len() implies named_index(
            lines,
            name,
            #[trigger] all[k],
        ) by {
            if k >= lead {
                assert(all[k] == tail[k - lead]);
                assert(named_index(rest, name, tail[k - lead]));
                let j = choose|j: int|
                    0 <= j < rest.len() && #[trigger] is_stale(rest[j], name) && first_word(rest[j])
                        == tail[k - lead];
                assert(lines[j + 1] == rest[j]);
                assert(is_stale(lines[j + 1], name));
            } else {
                assert(is_stale(lines[0], name));
            }
        }
        assert forall|j: int| 0 <= j < lines.len() && #[trigger] is_stale(
            lines[j],
            name,
        ) implies all.contains(first_word(lines[j])) by {
            if j == 0 {
                assert(all[0] == first_word(lines[0]));
            } else {
                assert(rest[j - 1] == lines[j]);
                assert(tail.contains(first_word(rest[j - 1])));
                let k = choose|k: int| 0 <= k < tail.len() && tail[k] == first_word(lines[j]);
                assert(all[k + lead] == tail[k]);
            }
        }
    }
}

/// Strings by contents.
pub open spec fn views(xs: Seq<String>) -> Seq<Seq<char>> {
    xs.map(|i: int, s: String| s@)
}

/// The arguments that load the module of a virtual microphone. Applications show it as "VC-Mic".
pub open spec fn load_arguments(name: Seq<char>) -> Seq<Seq<char>> {
    seq![
        "load-module"@,
        "module-null-sink"@,
        "sink_name="@ + name,
        "sink_properties=device.description=VC-Mic"@,
        "media.class=Audio/Source/Virtual"@,
        "audio.position=[MONO]"@,
    ]
}

fn joined(a: &str, b: &str) -> (r: String)
    ensures
        r@ == a@ + b@,
{
    let mut r = a.to_owned();
    r.append(b);
    r
}

impl VirtMic {
    /// The modules of an earlier run that are still loaded, by the list of loaded modules:
    /// null sinks with exactly this name. Other virtual devices are never among them.
    pub fn cleanup_stale(name: &str, list: &str) -> (r: Vec<String>)
        ensures
            views(r@) == stale_indices(lines_from(list@, 0), name@),
    {
        let text = chars(list);
        let kind = chars("module-null-sink");
        let argument = chars(joined("sink_name=", name).as_str());
        let len: usize = text.len();
        let ghost all = stale_indices(lines_from(list@, 0), name@);
        let mut r: Vec<String> = Vec::new();
        let mut from: usize = 0;
        let mut more = true;
        assert(views(r@) =~= Seq::<Seq<char>>::empty());
        while more
            invariant
                text@ == list@,
                kind@ == "module-null-sink"@,
                argument@ == "sink_name="@ + name@,
                len == text@.len(),
                from <= len,
                all == if more {
                    views(r@) + stale_indices(lines_from(list@, from as int), name@)
                } else {
                    views(r@)
                },
            decreases len - from + if more {
                1int
            } else {
                0int
            },
        {
            let mut end: usize = from;
            while end < len && text[end] != '\n'
                invariant
                    len == text@.len(),
                    from <= end <= len,
                    line_end(text@, from as int) == line_end(text@, end as int),
                decreases len - end,
            {
                end += 1;
            }
            let line = vstd::slice::slice_subrange(text.as_slice(), from, end);
            let ghost lines = lines_from(list@, from as int);
            assert(line@ == lines[0]);
            let ghost before = views(r@);
            if contains(line, kind.as_slice()) && contains_word(line, argument.as_slice()) {
                let start = skip_to(line, 0, false);
                let stop = skip_to(line, start, true);
                let index = list.substring_char(from + start, from + stop);
                proof {
                    assert(index@ =~= first_word(line@));
                }
                let index = index.to_owned();
                r.push(index);
                assert(views(r@) =~= before.push(first_word(line@)));
            }
            proof {
                if end == len {
                    assert(lines.skip(1) =~= Seq::<Seq<char>>::empty());
                    assert(stale_indices(lines.skip(1), name@) =~= Seq::<Seq<char>>::empty());
                } else {
                    assert(lines.skip(1) =~= lines_from(list@, end + 1));
                }
                assert(all =~= views(r@) + stale_indices(lines.skip(1), name@));
            }
            if end == len {
                more = false;
                from = len;
            } else {
                from = end + 1;
            }
        }
        r
    }

    /// The arguments with which the control tool loads the module of a virtual microphone.
    pub fn load_args(name: &str) -> (r: Vec<String>)
        ensures
            views(r@) == load_arguments(name@),
    {
        let mut r: Vec<String> = Vec::new();
        r.push("load-module".to_owned());
        r.push("module-null-sink".to_owned());
        r.push(joined("sink_name=", name));
        r.push("sink_properties=device.description=VC-Mic".to_owned());
        r.push("media.class=Audio/Source/Virtual".to_owned());
        r.push("audio.position=[MONO]".to_owned());
        assert(views(r@) =~= load_arguments(name@));
        r
    }

    /// The virtual microphone that the reply to loading its module announces, and the module's
    /// index. `None` stands for a tool that could not be run.
    pub fn create(name: &str, reply: Option<ToolReply>) -> (r: Result<(VirtMic, u32), MicError>)
        ensures
            match reply {
                None => r matches Err(MicError::NoTool),
                Some(reply) => if !reply.success {
                    r matches Err(MicError::LoadFailed(e)) && e@ == reply.stderr@
                } else {
                    match number_in(reply.stdout@) {
                        Some(idx) => r matches Ok((mic, i)) && mic.node_name@ == name@ && i == idx,
                        None => r matches Err(MicError::BadIndex),
                    }
                },
            },
    {
        match reply {
            None => Err(MicError::NoTool),
            Some(reply) => if !reply.success {
                Err(MicError::LoadFailed(reply.stderr))
            } else {
                match parse_number(reply.stdout.as_str()) {
                    Some(idx) => Ok((VirtMic { node_name: name.to_owned() }, idx)),
                    None => Err(MicError::BadIndex),
                }
            },
        }
    }
}

/// The module that provides the virtual microphone, if one is loaded.
#[derive(Clone, Copy, Debug, PartialEq, Eq, Structural)]
pub struct ModuleSlot {
    /// Index of the module; zero if there is none.
    pub idx: u32,
}

impl ModuleSlot {
    /// The slot with module `idx` in it.
    pub open spec fn holding(self, idx: u32) -> Self {
        ModuleSlot { idx }
    }

    /// The slot after teardown, and the module to unload.
    pub open spec fn emptied(self) -> (Self, Option<u32>) {
        (
            ModuleSlot { idx: 0 },
            if self.idx != 0 {
                Some(self.idx)
            } else {
                None
            },
        )
    }

    /// No module.
    pub fn new() -> (r: Self)
        ensures
            r.idx == 0,
    {
        ModuleSlot { idx: 0 }
    }

    /// Remembers a loaded module.
    pub fn store(&mut self, idx: u32)
        ensures
            final(self).idx == idx,
            *final(self) == old(self).holding(idx),
    {
        self.idx = idx;
    }

    /// The module to unload, if there is one. It is given once only, however often teardown
    /// runs.
    pub fn teardown(&mut self) -> (r: Option<u32>)
        ensures
            final(self).idx == 0,
            r == if old(self).idx != 0 {
                Some(old(self).idx)
            } else {
                None
            },
            (*final(self), r) == old(self).emptied(),
    {
        let idx = self.idx;
        self.idx = 0;
        if idx != 0 {
            Some(idx)
        } else {
            None
        }
    }
}

/// Lines, each behind a line break but the first.
pub open spec fn rejoined(lines: Seq<Seq<char>>) -> Seq<char>
    decreases lines.len(),
{
    if lines.len() <= 1 {
        lines[0]
    } else {
        lines[0] + seq!['\n'] + rejoined(lines.skip(1))
    }
}

proof fn lemma_line_end(s: Seq<char>, from: int)
    requires
        0 <= from <= s.len(),
    ensures
        from <= line_end(s, from) <= s.len(),
        forall|i: int| from <= i < line_end(s, from) ==> #[trigger] s[i] != '\n',
        line_end(s, from) < s.len() ==> s[line_end(s, from)] == '\n',
    decreases s.len() - from,
{
    if from < s.len() && s[from] != '\n' {
        lemma_line_end(s, from + 1);
    }
}

proof fn lemma_lines(s: Seq<char>, from: int)
    requires
        0 <= from <= s.len(),
    ensures
        lines_from(s, from).len() > 0,
        forall|k: int|
            0 <= k < lines_from(s, from).len() ==> !(#[trigger] lines_from(s, from)[k]).contains(
                '\n',
            ),
        rejoined(lines_from(s, from)) == s.skip(from),
    decreases s.len() - from,
{
    lemma_line_end(s, from);
    let end = line_end(s, from);
    let first = s.subrange(from, end);
    let lines = lines_from(s, from);
    assert forall|i: int| 0 <= i < first.len() implies first[i] != '\n' by {
        assert(first[i] == s[from + i]);
    }
    if end < s.len() {
        lemma_lines(s, end + 1);
        let rest = lines_from(s, end + 1);
        assert(lines.skip(1) =~= rest);
        assert(s.skip(from) =~= first + seq!['\n'] + s.skip(end + 1));
        assert forall|k: int| 0 <= k < lines.len() implies !(#[trigger] lines[k]).contains(
            '\n',
        ) by {
            if k > 0 {
                assert(lines[k] == rest[k - 1]);
            }
        }
    } else {
        assert(s.skip(from) =~= first);
    }
}

/// A text is split at its line breaks: no line has one in it, and with line breaks between them the
/// lines are the text.
pub proof fn law_lines_are_split_at_line_breaks(s: Seq<char>)
    ensures
        forall|k: int|
            0 <= k < lines_from(s, 0).len() ==> !(#[trigger] lines_from(s, 0)[k]).contains('\n'),
        rejoined(lines_from(s, 0)) == s,
{
    lemma_lines(s, 0);
    assert(s.skip(0) =~= s);
}

/// A line of the module list is about a microphone of an earlier run exactly if it speaks of a null
/// sink, and of this very name: nothing but white space is before `sink_name=` and behind the name.
pub proof fn law_only_the_very_name_is_stale(line: Seq<char>, name: Seq<char>)
    ensures
        is_stale(line, name) <==> {
            &&& exists|a: Seq<char>, b: Seq<char>| #[trigger]
                parts(line, a, "module-null-sink"@, b)
            &&& exists|a: Seq<char>, b: Seq<char>| #[trigger]
                parts(line, a, "sink_name="@ + name, b) && apart(a, b)
        },
{
    law_text_is_found_where_it_is_a_part(line, "module-null-sink"@);
    law_text_is_found_where_it_is_a_part(line, "sink_name="@ + name);
}

/// How the module list shows a module that was loaded with the arguments of a microphone: its
/// index, its kind and its arguments, with tabulators between them and blanks between the
/// arguments.
pub open spec fn listed(index: Seq<char>, name: Seq<char>) -> Seq<char> {
    let args = load_arguments(name);
    let others = args[3] + seq![' '] + args[4] + seq![' '] + args[5];
    shown(index, args[1], args[2], others)
}

/// An index, a kind, an argument and others, as the module list shows them.
pub open spec fn shown(
    index: Seq<char>,
    kind: Seq<char>,
    argument: Seq<char>,
    others: Seq<char>,
) -> Seq<char> {
    index + seq!['\t'] + kind + seq!['\t'] + argument + seq![' '] + others
}

proof fn lemma_shown(index: Seq<char>, kind: Seq<char>, argument: Seq<char>, others: Seq<char>)
    requires
        index.len() > 0,
        unbroken(index),
    ensures
        occurs(shown(index, kind, argument, others), kind),
        occurs_as_word(shown(index, kind, argument, others), argument),
        first_word(shown(index, kind, argument, others)) == index,
{
    let line = shown(index, kind, argument, others);
    let (tab, blank) = (seq!['\t'], seq![' ']);
    assert(occurs(line, kind)) by {
        assert(line =~= (index + tab) + kind + (tab + argument + blank + others));
        assert(parts(line, index + tab, kind, tab + argument + blank + others));
        law_text_is_found_where_it_is_a_part(line, kind);
    }
    assert(occurs_as_word(line, argument)) by {
        let before = index + tab + kind + tab;
        let after = blank + others;
        assert(line =~= before + argument + after);
        assert(before.last() == '\t');
        assert(after[0] == ' ');
        assert(parts(line, before, argument, after) && apart(before, after));
        law_text_is_found_where_it_is_a_part(line, argument);
    }
    assert(first_word(line) == index) by {
        let rest = tab + kind + tab + argument + blank + others;
        assert(line =~= Seq::<char>::empty() + index + rest);
        assert(rest[0] == '\t');
        law_first_word(Seq::empty(), index, rest);
    }
}

/// What was loaded is found again: the line that lists a microphone's module is about a microphone
/// of an earlier run, and the index to unload is the module's.
pub proof fn law_loaded_module_is_found_again(index: Seq<char>, name: Seq<char>)
    requires
        index.len() > 0,
        unbroken(index),
    ensures
        is_stale(listed(index, name), name),
        first_word(listed(index, name)) == index,
{
    let args = load_arguments(name);
    let others = args[3] + seq![' '] + args[4] + seq![' '] + args[5];
    lemma_shown(index, args[1], args[2], others);
}

/// A module is unloaded once: the first teardown gives the module that was remembered last, and any
/// further one gives nothing.
pub proof fn law_module_is_unloaded_once(slot: ModuleSlot, idx: u32)
    requires
        idx != 0,
    ensures
        slot.holding(idx).emptied().1 == Some(idx),
        slot.holding(idx).emptied().0.emptied().1 is None,
        slot.emptied().0.emptied().1 is None,
{
}

} // verus!
