//! The scanner: from the text of a file to its call graph, in two passes over
//! the lines. The first pass collects the definitions, the second the calls.
//!
//! `parse_model` says what graph a sequence of lines has; `parse_functions`
//! computes it.

use vstd::prelude::*;
use crate::cache::{cached, load_cache, save_cache, stored, CacheEntry, EntryModel};
use crate::config::Config;
use crate::error::ParseError;
use crate::file_info::FileInfo;
use crate::graph::{calls, defines, graph_wf, CallGraph, FnInfo, FnModel};
use crate::lang::{is_identifier, is_identifier_chars, LangSpec, LexModel, Lexicon};
use crate::text::{
    append_chars, contains, copy_range, ends_trimmed_with, ends_with, find, first_index,
    has_prefix, has_substring, lemma_first_index, lemma_no_lines_iff_empty,
    lines_of, occurs_at,
    split_lines, starts_with, strip_repeated, stripped_repeated, to_chars, to_text, trim,
    trim_end, trim_start, trimmed, trimmed_start, views,
};

verus! {

// ---------------------------------------------------------------------------
// What a line is
// ---------------------------------------------------------------------------

/// What stands between the keyword of a definition and its first parameter
/// delimiter, trimmed. Every leading repetition of the keyword is passed over.
pub open spec fn name_candidate(lex: LexModel, def_line: Seq<char>) -> Option<Seq<char>> {
    let after = trim(strip_repeated(def_line, lex.keyword));
    if contains(after, lex.open) {
        Some(trim(after.take(first_index(after, lex.open))))
    } else {
        None
    }
}

/// The name that a definition declares: its candidate, if that can name a
/// function.
pub open spec fn declared_name(lex: LexModel, def_line: Seq<char>) -> Option<Seq<char>> {
    match name_candidate(lex, def_line) {
        Some(name) => if is_identifier(name) {
            Some(name)
        } else {
            None
        },
        None => None,
    }
}

/// The line, without its indentation, begins with the definition keyword.
pub open spec fn is_def_line(lex: LexModel, line: Seq<char>) -> bool {
    starts_with(trim_start(line), lex.keyword)
}

/// The name of the function whose definition `line` opens, if it opens one
/// and the name can be read.
pub open spec fn definition_at(lex: LexModel, line: Seq<char>) -> Option<Seq<char>> {
    if is_def_line(lex, line) {
        declared_name(lex, trim_start(line))
    } else {
        None
    }
}

/// A line that is neither empty nor indented by a space or a tab ends the
/// scope of the current function.
pub open spec fn closes_scope(line: Seq<char>) -> bool {
    line.len() > 0 && line[0] != ' ' && line[0] != '\t'
}

/// `line` calls `name`: it holds `name(`, bare or behind a dot.
pub open spec fn is_call_site(line: Seq<char>, name: Seq<char>) -> bool {
    &&& contains(line, name)
    &&& (contains(line, name.push('(')) || contains(line, seq!['.'] + name.push('(')))
}

/// A call behind a dot is a bare call one character later, so a line calls
/// `name` exactly when it holds `name(`.
pub proof fn lemma_call_site(line: Seq<char>, name: Seq<char>)
    ensures
        is_call_site(line, name) == contains(line, name.push('(')),
{
    let bare = name.push('(');
    let member = seq!['.'] + bare;
    if contains(line, member) {
        let i = choose|i: int| occurs_at(line, member, i);
        assert(line.subrange(i + 1, i + 1 + bare.len()) =~= line.subrange(
            i,
            i + member.len(),
        ).skip(1));
        assert(member.skip(1) =~= bare);
        assert(occurs_at(line, bare, i + 1));
    }
    if contains(line, bare) {
        let i = choose|i: int| occurs_at(line, bare, i);
        assert(line.subrange(i, i + name.len()) =~= line.subrange(i, i + bare.len()).take(
            name.len() as int,
        ));
        assert(bare.take(name.len() as int) =~= name);
        assert(occurs_at(line, name, i));
    }
}

// ---------------------------------------------------------------------------
// How far a definition reaches
// ---------------------------------------------------------------------------

/// Lines `i` to `k` as one text: line `i` as it stands, then each later line
/// trimmed, with one space in between.
pub open spec fn joined(lines: Seq<Seq<char>>, i: int, k: int) -> Seq<char>
    decreases k - i,
{
    if k <= i {
        lines[i]
    } else {
        joined(lines, i, k - 1) + seq![' '] + trim(lines[k])
    }
}

/// The signature `text` is complete: trailing whitespace aside, it ends with
/// the terminator.
pub open spec fn is_closed(lex: LexModel, text: Seq<char>) -> bool {
    ends_with(trim_end(text), lex.terminator)
}

/// How many lines after line `k` the definition that line `i` opens takes
/// in, given that it has taken lines `i` to `k` in already. It takes lines in
/// until the signature is complete or the lines run out.
pub open spec fn continuation(lex: LexModel, lines: Seq<Seq<char>>, i: int, k: int) -> nat
    decreases lines.len() - k,
{
    if is_closed(lex, joined(lines, i, k)) || k + 1 >= lines.len() {
        0
    } else {
        1 + continuation(lex, lines, i, k + 1)
    }
}

/// The last line of the definition that line `i` opens.
pub open spec fn def_last(lex: LexModel, lines: Seq<Seq<char>>, i: int) -> int {
    i + continuation(lex, lines, i, i)
}

/// A definition ends within the lines.
pub proof fn lemma_continuation_bound(lex: LexModel, lines: Seq<Seq<char>>, i: int, k: int)
    requires
        k < lines.len(),
    ensures
        k + continuation(lex, lines, i, k) < lines.len(),
    decreases lines.len() - k,
{
    if !(is_closed(lex, joined(lines, i, k)) || k + 1 >= lines.len()) {
        lemma_continuation_bound(lex, lines, i, k + 1);
    }
}

/// The line after the definition that line `i` opens.
pub open spec fn after_def(lex: LexModel, lines: Seq<Seq<char>>, i: int) -> int {
    i + 1 + continuation(lex, lines, i, i)
}

// ---------------------------------------------------------------------------
// First pass: definitions
// ---------------------------------------------------------------------------

/// `g` with `name` defined at `line`, unless `g` defines `name` already.
pub open spec fn register(g: Seq<FnModel>, name: Seq<char>, line: int) -> Seq<FnModel> {
    if defines(g, name) {
        g
    } else {
        g.push(FnModel { name, line: line as nat, callees: Seq::empty() })
    }
}

/// The functions defined from line `i` on, added to `g`. A definition with a
/// readable name is registered and its lines are passed over; any other line
/// is passed over alone.
pub open spec fn collect_definitions(
    lex: LexModel,
    lines: Seq<Seq<char>>,
    i: int,
    g: Seq<FnModel>,
) -> Seq<FnModel>
    decreases lines.len() - i,
{
    if i < 0 || i >= lines.len() {
        g
    } else {
        match definition_at(lex, lines[i]) {
            Some(name) => {
                proof {
                    lemma_continuation_bound(lex, lines, i, i);
                }
                collect_definitions(lex, lines, after_def(lex, lines, i), register(g, name, i))
            },
            None => collect_definitions(lex, lines, i + 1, g),
        }
    }
}

// ---------------------------------------------------------------------------
// Second pass: calls
// ---------------------------------------------------------------------------

/// `g` with a call from `caller` to `callee` at line `at`, unless `caller`
/// lists `callee` already.
pub open spec fn record(g: Seq<FnModel>, caller: Seq<char>, callee: Seq<char>, at: int) -> Seq<
    FnModel,
> {
    Seq::new(
        g.len(),
        |k: int|
            if g[k].name == caller && !calls(g[k], callee) {
                FnModel {
                    name: g[k].name,
                    line: g[k].line,
                    callees: g[k].callees.push((callee, at as nat)),
                }
            } else {
                g[k]
            },
    )
}

/// `g` with the calls that `line`, which is line `at`, makes from `caller`
/// to the functions from the `j`-th on, in definition order.
pub open spec fn note_calls(
    g: Seq<FnModel>,
    caller: Seq<char>,
    line: Seq<char>,
    at: int,
    j: int,
) -> Seq<FnModel>
    decreases g.len() - j,
{
    if j < 0 || j >= g.len() {
        g
    } else {
        let callee = g[j].name;
        let next = if callee != caller && is_call_site(line, callee) {
            record(g, caller, callee, at)
        } else {
            g
        };
        note_calls(next, caller, line, at, j + 1)
    }
}

/// `g` with the calls made from line `i` on, where `current` is the function
/// whose scope line `i` lies in. A definition with a readable name makes its
/// function current, and its lines are passed over; a definition without one
/// changes nothing; a line that closes the scope leaves no function current;
/// any other line is searched for calls from the current function.
pub open spec fn collect_calls(
    lex: LexModel,
    lines: Seq<Seq<char>>,
    i: int,
    current: Option<Seq<char>>,
    g: Seq<FnModel>,
) -> Seq<FnModel>
    decreases lines.len() - i,
{
    if i < 0 || i >= lines.len() {
        g
    } else if is_def_line(lex, lines[i]) {
        match definition_at(lex, lines[i]) {
            Some(name) => {
                proof {
                    lemma_continuation_bound(lex, lines, i, i);
                }
                collect_calls(lex, lines, after_def(lex, lines, i), Some(name), g)
            },
            None => collect_calls(lex, lines, i + 1, current, g),
        }
    } else {
        match current {
            Some(caller) => if closes_scope(lines[i]) {
                collect_calls(lex, lines, i + 1, None, g)
            } else {
                collect_calls(lex, lines, i + 1, current, note_calls(g, caller, lines[i], i, 0))
            },
            None => collect_calls(lex, lines, i + 1, None, g),
        }
    }
}

/// The call graph of `lines`.
pub open spec fn parse_model(lex: LexModel, lines: Seq<Seq<char>>) -> Seq<FnModel> {
    collect_calls(lex, lines, 0, None, collect_definitions(lex, lines, 0, Seq::empty()))
}

// ---------------------------------------------------------------------------
// Reading one line
// ---------------------------------------------------------------------------

/// Reads the candidate name of the definition `def_line`.
fn candidate_of(lex: &Lexicon, def_line: &Vec<char>) -> (name: Option<Vec<char>>)
    ensures
        match name {
            Some(n) => name_candidate(lex@, def_line@) == Some(n@),
            None => name_candidate(lex@, def_line@) is None,
        },
{
    let stripped = stripped_repeated(def_line, &lex.keyword);
    let after = trimmed(&stripped);
    match find(&after, &lex.open) {
        Some(at) => {
            proof {
                lemma_first_index(after@, lex.open@, at as int);
            }
            let head = copy_range(&after, 0, at);
            assert(head@ =~= after@.take(at as int));
            Some(trimmed(&head))
        },
        None => None,
    }
}

/// Reads the name that the definition `def_line` declares.
fn name_of_definition(lex: &Lexicon, def_line: &Vec<char>) -> (name: Option<Vec<char>>)
    ensures
        match name {
            Some(n) => declared_name(lex@, def_line@) == Some(n@),
            None => declared_name(lex@, def_line@) is None,
        },
{
    match candidate_of(lex, def_line) {
        Some(name) => if is_identifier_chars(&name) {
            Some(name)
        } else {
            None
        },
        None => None,
    }
}

/// The name that the definition `def_line` declares in language `L`, if it
/// can be read. `def_line` starts with the keyword.
pub fn extract_function_name<L: LangSpec>(def_line: &str) -> (name: Option<String>)
    ensures
        match name {
            Some(n) => declared_name(L::lex(), def_line@) == Some(n@),
            None => declared_name(L::lex(), def_line@) is None,
        },
{
    let lex = L::lexicon();
    match candidate_of(&lex, &to_chars(def_line)) {
        Some(chars) => {
            let name = to_text(&chars);
            if L::is_valid_identifier(name.as_str()) {
                Some(name)
            } else {
                None
            }
        },
        None => None,
    }
}

/// Whether `line` calls `func_name`.
pub fn line_contains_function_call(line: &str, func_name: &str) -> (found: bool)
    ensures
        found == is_call_site(line@, func_name@),
{
    let mut pattern = to_chars(func_name);
    pattern.push('(');
    proof {
        lemma_call_site(line@, func_name@);
    }
    has_substring(&to_chars(line), &pattern)
}

/// The line after the definition that line `i` opens.
fn definition_end(lex: &Lexicon, lines: &Vec<Vec<char>>, i: usize) -> (next: usize)
    requires
        i < lines.len(),
    ensures
        next == after_def(lex@, views(lines@), i as int),
        i < next <= lines.len(),
{
    let ghost all = views(lines@);
    let mut complete = copy_range(&lines[i], 0, lines[i].len());
    assert(complete@ =~= all[i as int]);
    let mut last: usize = i;
    while !ends_trimmed_with(&complete, &lex.terminator) && last + 1 < lines.len()
        invariant
            i <= last < lines.len(),
            all == views(lines@),
            complete@ == joined(all, i as int, last as int),
            continuation(lex@, all, i as int, i as int) + i == continuation(
                lex@,
                all,
                i as int,
                last as int,
            ) + last,
        decreases lines.len() - last,
    {
        last += 1;
        complete.push(' ');
        let piece = trimmed(&lines[last]);
        append_chars(&mut complete, &piece);
        assert(complete@ =~= joined(all, i as int, last - 1) + seq![' '] + trim(all[last as int]));
    }
    last + 1
}

// ---------------------------------------------------------------------------
// The two passes
// ---------------------------------------------------------------------------

/// First pass: the functions that `lines` define, without their calls.
fn scan_definitions(lex: &Lexicon, lines: &Vec<Vec<char>>) -> (g: CallGraph)
    ensures
        g@ == collect_definitions(lex@, views(lines@), 0, Seq::empty()),
{
    let ghost all = views(lines@);
    let mut g = CallGraph::new();
    let mut i: usize = 0;
    while i < lines.len()
        invariant
            i <= lines.len(),
            all == views(lines@),
            collect_definitions(lex@, all, i as int, g@) == collect_definitions(
                lex@,
                all,
                0,
                Seq::empty(),
            ),
        decreases lines.len() - i,
    {
        let stripped = trimmed_start(&lines[i]);
        let name = if has_prefix(&stripped, &lex.keyword) {
            name_of_definition(lex, &stripped)
        } else {
            None
        };
        match name {
            Some(chars) => {
                let next = definition_end(lex, lines, i);
                let ghost before = g@;
                g.insert(to_text(&chars), FnInfo::new(i));
                assert(g@ == register(before, chars@, i as int));
                i = next;
            },
            None => {
                i += 1;
            },
        }
    }
    g
}

/// A function that the graph does not define makes no call.
proof fn lemma_unknown_caller(
    g: Seq<FnModel>,
    caller: Seq<char>,
    line: Seq<char>,
    at: int,
    j: int,
)
    requires
        !defines(g, caller),
    ensures
        note_calls(g, caller, line, at, j) == g,
    decreases g.len() - j,
{
    if 0 <= j < g.len() {
        assert(record(g, caller, g[j].name, at) =~= g);
        lemma_unknown_caller(g, caller, line, at, j + 1);
    }
}

/// The names and the call patterns of `g` are those listed.
spec fn indexed(g: Seq<FnModel>, names: Seq<String>, patterns: Seq<Vec<char>>) -> bool {
    &&& names.len() == g.len()
    &&& patterns.len() == g.len()
    &&& forall|j: int| 0 <= j < g.len() ==> (#[trigger] names[j])@ == g[j].name
    &&& forall|j: int| 0 <= j < g.len() ==> (#[trigger] patterns[j])@ == g[j].name.push('(')
}

/// Records the calls that `line`, which is line `at`, makes from `caller`.
fn note_line(
    g: CallGraph,
    caller: &String,
    line: &Vec<char>,
    at: usize,
    names: &Vec<String>,
    patterns: &Vec<Vec<char>>,
) -> (r: CallGraph)
    requires
        indexed(g@, names@, patterns@),
    ensures
        r@ == note_calls(g@, caller@, line@, at as int, 0),
        indexed(r@, names@, patterns@),
{
    let mut g = g;
    let ghost start = g@;
    let n = g.len();
    match g.position(caller) {
        None => {
            proof {
                lemma_unknown_caller(start, caller@, line@, at as int, 0);
            }
        },
        Some(c) => {
            let mut j: usize = 0;
            while j < n
                invariant
                    j <= n,
                    n == g@.len(),
                    c < n,
                    g@[c as int].name == caller@,
                    graph_wf(g@),
                    indexed(g@, names@, patterns@),
                    note_calls(g@, caller@, line@, at as int, j as int) == note_calls(
                        start,
                        caller@,
                        line@,
                        at as int,
                        0,
                    ),
                decreases n - j,
            {
                let ghost before = g@;
                let ghost callee = before[j as int].name;
                proof {
                    lemma_call_site(line@, callee);
                    assert(patterns@[j as int]@ == callee.push('('));
                    assert(names@[j as int]@ == callee);
                    if j != c {
                        assert(before[j as int].name != before[c as int].name);
                    }
                }
                if j != c && has_substring(line, &patterns[j]) {
                    g.record_call(c, &names[j], at);
                    proof {
                        let after = record(before, caller@, callee, at as int);
                        assert forall|k: int| 0 <= k < before.len() implies g@[k] == after[k] by {
                            if k != c {
                                assert(before[k].name != before[c as int].name);
                            }
                        }
                        assert(g@ =~= after);
                        assert(note_calls(before, caller@, line@, at as int, j as int)
                            == note_calls(after, caller@, line@, at as int, j + 1));
                    }
                } else {
                    assert(note_calls(before, caller@, line@, at as int, j as int)
                        == note_calls(before, caller@, line@, at as int, j + 1));
                }
                j += 1;
            }
        },
    }
    g
}

/// The view of an optional name.
spec fn name_view(name: Option<String>) -> Option<Seq<char>> {
    match name {
        Some(n) => Some(n@),
        None => None,
    }
}

/// Second pass: `g` with the calls that `lines` make.
fn scan_calls(lex: &Lexicon, lines: &Vec<Vec<char>>, g: CallGraph) -> (r: CallGraph)
    ensures
        r@ == collect_calls(lex@, views(lines@), 0, None, g@),
{
    let mut g = g;
    let ghost all = views(lines@);
    let ghost start = g@;
    let n = g.len();
    let mut names: Vec<String> = Vec::new();
    let mut patterns: Vec<Vec<char>> = Vec::new();
    let mut k: usize = 0;
    while k < n
        invariant
            k <= n,
            n == g@.len(),
            names@.len() == k,
            patterns@.len() == k,
            forall|j: int| 0 <= j < k ==> (#[trigger] names@[j])@ == g@[j].name,
            forall|j: int| 0 <= j < k ==> (#[trigger] patterns@[j])@ == g@[j].name.push('('),
        decreases n - k,
    {
        let name = g.name_at(k).clone();
        let mut pattern = to_chars(name.as_str());
        pattern.push('(');
        names.push(name);
        patterns.push(pattern);
        k += 1;
    }
    let mut current: Option<String> = None;
    let mut i: usize = 0;
    while i < lines.len()
        invariant
            i <= lines.len(),
            all == views(lines@),
            indexed(g@, names@, patterns@),
            collect_calls(lex@, all, i as int, name_view(current), g@) == collect_calls(
                lex@,
                all,
                0,
                None,
                start,
            ),
        decreases lines.len() - i,
    {
        let line = &lines[i];
        let stripped = trimmed_start(line);
        if has_prefix(&stripped, &lex.keyword) {
            match name_of_definition(lex, &stripped) {
                Some(chars) => {
                    current = Some(to_text(&chars));
                    i = definition_end(lex, lines, i);
                },
                None => {
                    i += 1;
                },
            }
        } else {
            let closes = line.len() > 0 && line[0] != ' ' && line[0] != '\t';
            if current.is_some() {
                if closes {
                    current = None;
                } else {
                    if let Some(caller) = &current {
                        g = note_line(g, caller, line, i, &names, &patterns);
                    }
                }
            }
            i += 1;
        }
    }
    g
}

/// The call graph of `content`, read as a file of the language that
/// `file_info` names.
///
/// Fails with `UnsupportedLanguage` when the language is unknown, and
/// otherwise with `ParseFailure` when `content` is empty. Content without a
/// single function is no failure: its graph is empty.
pub fn parse_functions(file_info: &FileInfo, content: &str) -> (r: Result<CallGraph, ParseError>)
    ensures
        match r {
            Ok(g) => file_info.file_type.lex_model() matches Some(lex) && content@.len() > 0
                && g@ == parse_model(lex, split_lines(content@)),
            Err(e) => match file_info.file_type.lex_model() {
                None => e matches ParseError::UnsupportedLanguage(detail) && detail@
                    == "unknown"@,
                Some(_) => e matches ParseError::ParseFailure(detail) && detail@
                    == "File is empty"@ && content@.len() == 0,
            },
        },
{
    let lex = match file_info.file_type.lexicon() {
        Some(lex) => lex,
        None => {
            return Err(ParseError::UnsupportedLanguage("unknown".to_owned()));
        },
    };
    let text = to_chars(content);
    let lines = lines_of(&text);
    proof {
        lemma_no_lines_iff_empty(content@);
    }
    if lines.len() == 0 {
        return Err(ParseError::ParseFailure("File is empty".to_owned()));
    }
    let defined = scan_definitions(&lex, &lines);
    let g = scan_calls(&lex, &lines, defined);
    Ok(g)
}

// ---------------------------------------------------------------------------
// Definitions that cannot be read
// ---------------------------------------------------------------------------

/// The lines from line `i` on that open a definition whose name cannot be
/// read, as the first pass meets them.
pub open spec fn unreadable_from(lex: LexModel, lines: Seq<Seq<char>>, i: int) -> Seq<nat>
    decreases lines.len() - i,
{
    if i < 0 || i >= lines.len() {
        Seq::empty()
    } else {
        match definition_at(lex, lines[i]) {
            Some(name) => {
                proof {
                    lemma_continuation_bound(lex, lines, i, i);
                }
                unreadable_from(lex, lines, after_def(lex, lines, i))
            },
            None => if is_def_line(lex, lines[i]) {
                seq![i as nat] + unreadable_from(lex, lines, i + 1)
            } else {
                unreadable_from(lex, lines, i + 1)
            },
        }
    }
}

/// The zero-based lines of `content` that open a definition whose name
/// cannot be read. Such a definition is passed over; it is worth a warning,
/// not a failure. None is reported for an unknown language.
pub fn unreadable_definitions(file_info: &FileInfo, content: &str) -> (found: Vec<usize>)
    ensures
        match file_info.file_type.lex_model() {
            Some(lex) => found@.map_values(|i: usize| i as nat) == unreadable_from(
                lex,
                split_lines(content@),
                0,
            ),
            None => found@.len() == 0,
        },
{
    let mut found: Vec<usize> = Vec::new();
    let lex = match file_info.file_type.lexicon() {
        Some(lex) => lex,
        None => {
            return found;
        },
    };
    let text = to_chars(content);
    let lines = lines_of(&text);
    let ghost all = views(lines@);
    let mut i: usize = 0;
    assert(found@.map_values(|i: usize| i as nat) =~= Seq::<nat>::empty());
    while i < lines.len()
        invariant
            i <= lines.len(),
            all == views(lines@),
            found@.map_values(|i: usize| i as nat) + unreadable_from(lex@, all, i as int)
                == unreadable_from(lex@, all, 0),
        decreases lines.len() - i,
    {
        let stripped = trimmed_start(&lines[i]);
        if has_prefix(&stripped, &lex.keyword) {
            match name_of_definition(&lex, &stripped) {
                Some(_) => {
                    i = definition_end(&lex, &lines, i);
                },
                None => {
                    let ghost before = found@.map_values(|i: usize| i as nat);
                    found.push(i);
                    assert(found@.map_values(|i: usize| i as nat) =~= before.push(i as nat));
                    assert(before.push(i as nat) + unreadable_from(lex@, all, i + 1) =~= before
                        + (seq![i as nat] + unreadable_from(lex@, all, i + 1)));
                    i += 1;
                },
            }
        } else {
            i += 1;
        }
    }
    assert(found@.map_values(|i: usize| i as nat) + Seq::<nat>::empty() =~= found@.map_values(
        |i: usize| i as nat,
    ));
    found
}

// ---------------------------------------------------------------------------
// The pipeline
// ---------------------------------------------------------------------------

/// What parsing a file came to.
#[derive(Debug)]
pub struct Parsed {
    pub functions: CallGraph,
    /// Whether the graph was taken from the cache.
    pub from_cache: bool,
    /// The entry to write to the cache, if one is to be written.
    pub to_store: Option<CacheEntry>,
}

/// The graph that the cache holds for `content`: that of `entry` when the
/// cache is enabled, the modification time is known, and both it and the
/// fingerprint agree.
pub open spec fn cache_hit(
    config: Config,
    entry: Option<EntryModel>,
    modified: Option<u64>,
    content: Seq<char>,
) -> Option<Seq<FnModel>> {
    if config.enable_cache && entry is Some && modified is Some {
        cached(entry->0, content, modified->0)
    } else {
        None
    }
}

/// The entry that a fresh parse leaves for the cache: one under the
/// fingerprint of `content`, when the cache is enabled and the modification
/// time is known.
pub open spec fn cache_update(
    config: Config,
    modified: Option<u64>,
    content: Seq<char>,
    functions: Seq<FnModel>,
) -> Option<EntryModel> {
    if config.enable_cache && modified is Some {
        Some(stored(content, modified->0, functions))
    } else {
        None
    }
}

/// The view of an optional entry.
pub open spec fn entry_view(entry: Option<CacheEntry>) -> Option<EntryModel> {
    match entry {
        Some(e) => Some(e@),
        None => None,
    }
}

/// The call graph of the file `file_info` with the given `content`, by way
/// of the cache. `cached_entry` is what the cache holds for the file, if it
/// could be read; `modified` is when the file was last modified, if known.
///
/// Empty content is a `ParseFailure`. Otherwise a fresh cache entry settles
/// the graph. Otherwise the content is parsed, which fails for an unknown
/// language, and the result is to be stored where the cache is enabled.
pub fn parse_file(
    file_info: &FileInfo,
    config: &Config,
    content: &str,
    cached_entry: Option<CacheEntry>,
    modified: Option<u64>,
) -> (r: Result<Parsed, ParseError>)
    ensures
        content@.len() == 0 ==> (r matches Err(ParseError::ParseFailure(detail)) && detail@
            == "File is empty"@),
        content@.len() > 0 ==> match cache_hit(
            *config,
            entry_view(cached_entry),
            modified,
            content@,
        ) {
            Some(g) => r matches Ok(p) && p.functions@ == g && p.from_cache && p.to_store is None,
            None => match file_info.file_type.lex_model() {
                Some(lex) => r matches Ok(p) && p.functions@ == parse_model(
                    lex,
                    split_lines(content@),
                ) && !p.from_cache && entry_view(p.to_store) == cache_update(
                    *config,
                    modified,
                    content@,
                    p.functions@,
                ),
                None => r matches Err(ParseError::UnsupportedLanguage(detail)) && detail@
                    == "unknown"@,
            },
        },
{
    if content.is_empty() {
        return Err(ParseError::ParseFailure("File is empty".to_owned()));
    }
    if config.enable_cache {
        match modified {
            Some(at) => {
                match load_cache(cached_entry, content, at) {
                    Some(functions) => {
                        return Ok(Parsed { functions, from_cache: true, to_store: None });
                    },
                    None => {},
                }
            },
            None => {},
        }
    }
    let functions = match parse_functions(file_info, content) {
        Ok(functions) => functions,
        Err(e) => {
            return Err(e);
        },
    };
    let to_store = if config.enable_cache {
        match modified {
            Some(at) => Some(save_cache(content, at, &functions)),
            None => None,
        }
    } else {
        None
    };
    Ok(Parsed { functions, from_cache: false, to_store })
}

} // verus!
