//! Parser for the line-oriented, MIR-shaped text format, lowering into `ir`.
//!
//! Grammar (`#` starts a comment):
//!
//!   fn NAME
//!   bbN:
//!     LOCAL = acquire KIND         -- unconditional guard acquire (statement)
//!     drop LOCAL                   -- guard drop / StorageDead (statement)
//!     storage_dead LOCAL           -- same as drop
//!     call SYMBOL -> bbN           -- call terminator (checkpoint iff forbidden)
//!     suspend -> bbN               -- await / coroutine suspend (always checkpoint)
//!     drop_call LOCAL -> bbN       -- release then continue
//!     forget_call LOCAL -> bbN     -- a call that does NOT release
//!     try LOCAL = KIND -> succ fail -- conditional acquire; guard live on success
//!     goto bbN
//!     ret
//!
//! KIND classifies the guard: the spin_lock family is PreemptDisabling; else Sleepable.
use vstd::prelude::*;
use std::collections::BTreeMap;
use crate::ir::{BasicBlock, Block, BlockModel, Callee, Function, FunctionModel, GuardClass, Local, Stmt, Successor, Term, TermModel};
use crate::scan::{before_hash, clean, clean_line, decimal, decimal_chars, is_word, join_range, join_words, lines_of, same_chars, seqs_view, split_lines, split_words, strip_colons, strip_trailing_colons, words_of, newline_free, join_lines, lemma_lines_of_join, lemma_join_lines_of};
use crate::sorting::chars_of;

verus! {

// ---------------------------------------------------------------------------
// Guard kinds and names
// ---------------------------------------------------------------------------

/// The class of a guard kind: the spin_lock family disables preemption.
pub open spec fn class_spec(kind: Seq<char>) -> GuardClass {
    if kind == "spin_lock"@ || kind == "raw_spin_lock"@ || kind == "spin_lock_irqsave"@ || kind
        == "spin_lock_bh"@ || kind == "local_irq_save"@ || kind == "preempt_disable"@ {
        GuardClass::PreemptDisabling
    } else {
        GuardClass::Sleepable
    }
}

fn class_of(kind: &Vec<char>) -> (c: GuardClass)
    ensures
        c == class_spec(kind@),
{
    if is_word(kind, "spin_lock") || is_word(kind, "raw_spin_lock") || is_word(kind, "spin_lock_irqsave")
        || is_word(kind, "spin_lock_bh") || is_word(kind, "local_irq_save") || is_word(kind, "preempt_disable") {
        GuardClass::PreemptDisabling
    } else {
        GuardClass::Sleepable
    }
}

/// The position of `x` among names interned so far.
pub open spec fn name_index(names: Seq<Seq<char>>, x: Seq<char>) -> int {
    choose|i: int| 0 <= i < names.len() && names[i] == x
}

/// Interning `x` does not overflow the 32-bit counter.
pub open spec fn intern_fits(names: Seq<Seq<char>>, x: Seq<char>) -> bool {
    names.contains(x) || names.len() < u32::MAX
}

/// The number of `x`: its first-seen position.
pub open spec fn intern_id(names: Seq<Seq<char>>, x: Seq<char>) -> u32 {
    if names.contains(x) { name_index(names, x) as u32 } else { names.len() as u32 }
}

/// The names after interning `x`.
pub open spec fn intern_names(names: Seq<Seq<char>>, x: Seq<char>) -> Seq<Seq<char>> {
    if names.contains(x) { names } else { names.push(x) }
}

/// Interns block and local names to numbers, in first-seen order.
pub struct Interner {
    locals: Vec<Vec<char>>,
    blocks: Vec<Vec<char>>,
}

spec fn distinct_names(v: Seq<Vec<char>>) -> bool {
    &&& v.len() <= u32::MAX
    &&& forall|i: int, j: int| 0 <= i < j < v.len() ==> v[i]@ != v[j]@
}

fn intern(names: &mut Vec<Vec<char>>, name: &Vec<char>) -> (id: u32)
    requires
        distinct_names(old(names)@),
        intern_fits(seqs_view(old(names)@), name@),
    ensures
        distinct_names(final(names)@),
        seqs_view(final(names)@) == intern_names(seqs_view(old(names)@), name@),
        id == intern_id(seqs_view(old(names)@), name@),
{
    let ghost v = seqs_view(names@);
    let mut i: usize = 0;
    while i < names.len()
        invariant
            i <= names@.len(),
            distinct_names(names@),
            v == seqs_view(names@),
            forall|k: int| 0 <= k < i ==> names@[k]@ != name@,
        decreases names@.len() - i,
    {
        if same_chars(names[i].as_slice(), name.as_slice()) {
            proof {
                assert(v[i as int] == name@);
                assert(v.contains(name@));
                let c = name_index(v, name@);
                assert(names@[c]@ == name@);
                if c != i {
                    if c < i {
                        assert(names@[c]@ != names@[i as int]@);
                    } else {
                        assert(names@[i as int]@ != names@[c]@);
                    }
                }
            }
            return i as u32;
        }
        i = i + 1;
    }
    proof {
        assert(!v.contains(name@));
    }
    let n = names.len();
    names.push(name.clone());
    assert(seqs_view(names@) =~= v.push(name@));
    n as u32
}

/// Whether interning `name` keeps the counter within 32 bits.
fn fits(names: &Vec<Vec<char>>, name: &Vec<char>) -> (b: bool)
    ensures
        b == intern_fits(seqs_view(names@), name@),
{
    if names.len() < 0xFFFF_FFFFusize {
        return true;
    }
    let ghost v = seqs_view(names@);
    let mut i: usize = 0;
    while i < names.len()
        invariant
            i <= names@.len(),
            v == seqs_view(names@),
            forall|k: int| 0 <= k < i ==> names@[k]@ != name@,
        decreases names@.len() - i,
    {
        if same_chars(names[i].as_slice(), name.as_slice()) {
            assert(v[i as int] == name@);
            return true;
        }
        i = i + 1;
    }
    assert(!v.contains(name@));
    false
}

impl Interner {
    /// The local names seen so far; each one's number is its position.
    pub closed spec fn local_names(&self) -> Seq<Seq<char>> {
        seqs_view(self.locals@)
    }

    /// The block names seen so far; each one's number is its position.
    pub closed spec fn block_names(&self) -> Seq<Seq<char>> {
        seqs_view(self.blocks@)
    }

    pub fn new() -> (s: Interner)
        ensures
            s.wf(),
            s.local_names() == Seq::<Seq<char>>::empty(),
            s.block_names() == Seq::<Seq<char>>::empty(),
    {
        let s = Interner { locals: Vec::new(), blocks: Vec::new() };
        assert(seqs_view(s.locals@) =~= Seq::<Seq<char>>::empty());
        assert(seqs_view(s.blocks@) =~= Seq::<Seq<char>>::empty());
        s
    }

    /// No name is held twice, and every number fits in 32 bits.
    pub closed spec fn wf(&self) -> bool {
        distinct_names(self.locals@) && distinct_names(self.blocks@)
    }

    /// The number of the local `name`, given it on first sight.
    pub fn local(&mut self, name: &Vec<char>) -> (l: Local)
        requires
            old(self).wf(),
            intern_fits(old(self).local_names(), name@),
        ensures
            final(self).wf(),
            final(self).local_names() == intern_names(old(self).local_names(), name@),
            final(self).block_names() == old(self).block_names(),
            l.0 == intern_id(old(self).local_names(), name@),
    {
        Local(intern(&mut self.locals, name))
    }

    /// The number of the block `name`, given it on first sight.
    pub fn block(&mut self, name: &Vec<char>) -> (b: BasicBlock)
        requires
            old(self).wf(),
            intern_fits(old(self).block_names(), name@),
        ensures
            final(self).wf(),
            final(self).block_names() == intern_names(old(self).block_names(), name@),
            final(self).local_names() == old(self).local_names(),
            b.0 == intern_id(old(self).block_names(), name@),
    {
        BasicBlock(intern(&mut self.blocks, name))
    }
}

// ---------------------------------------------------------------------------
// The meaning of a module text
// ---------------------------------------------------------------------------

/// What the parser has read so far.
pub struct ParseState {
    /// The functions finished so far.
    pub funcs: Seq<FunctionModel>,
    /// The name of the function being read, if any.
    pub name: Option<Seq<char>>,
    /// Local names of the function being read, in first-seen order.
    pub locals: Seq<Seq<char>>,
    /// Block labels of the function being read, in first-seen order.
    pub labels: Seq<Seq<char>>,
    /// The finished blocks of the function being read.
    pub blocks: Map<u32, BlockModel>,
    /// Blocks in the order their labels appear.
    pub order: Seq<u32>,
    /// The first labelled block of the function being read.
    pub entry: Option<u32>,
    /// The block being read: its number, statements and terminator so far.
    pub cur: Option<(u32, Seq<Stmt>, Option<TermModel>)>,
}

/// The outcome of reading one line.
pub enum Step {
    /// Reading goes on in this state.
    Next(ParseState),
    /// The module is rejected with this message.
    Fail(Seq<char>),
    /// The line cannot be read at all (a missing operand or an exhausted counter).
    Abort,
}

/// The outcome of reading a whole module.
pub enum ParseOutcome {
    Parsed(Seq<FunctionModel>),
    Rejected(Seq<char>),
    Aborted,
}

pub open spec fn start_state() -> ParseState {
    ParseState {
        funcs: Seq::empty(),
        name: None,
        locals: Seq::empty(),
        labels: Seq::empty(),
        blocks: Map::empty(),
        order: Seq::empty(),
        entry: None,
        cur: None,
    }
}

/// Files the block being read; a block without a terminator returns.
pub open spec fn flush_block_spec(st: ParseState) -> ParseState {
    match st.cur {
        Some(c) => ParseState {
            blocks: st.blocks.insert(
                c.0,
                BlockModel {
                    id: c.0,
                    stmts: c.1,
                    term: match c.2 {
                        Some(t) => t,
                        None => TermModel::Return,
                    },
                },
            ),
            cur: None,
            ..st
        },
        None => st,
    }
}

/// Files the function being read, if any, and starts afresh; a function without
/// blocks has entry 0.
pub open spec fn flush_fn_spec(st: ParseState) -> ParseState {
    match st.name {
        Some(n) => {
            let s1 = flush_block_spec(st);
            ParseState {
                funcs: s1.funcs.push(
                    FunctionModel {
                        name: n,
                        entry: match s1.entry {
                            Some(e) => e,
                            None => 0,
                        },
                        blocks: s1.blocks,
                        order: s1.order,
                    },
                ),
                ..start_state()
            }
        },
        None => st,
    }
}

pub open spec fn add_stmt(st: ParseState, x: Stmt) -> ParseState {
    match st.cur {
        Some(c) => ParseState { cur: Some((c.0, c.1.push(x), c.2)), ..st },
        None => st,
    }
}

pub open spec fn set_term(st: ParseState, t: TermModel) -> ParseState {
    match st.cur {
        Some(c) => ParseState { cur: Some((c.0, c.1, Some(t))), ..st },
        None => st,
    }
}

pub open spec fn with_local(st: ParseState, x: Seq<char>) -> ParseState {
    ParseState { locals: intern_names(st.locals, x), ..st }
}

pub open spec fn with_label(st: ParseState, x: Seq<char>) -> ParseState {
    ParseState { labels: intern_names(st.labels, x), ..st }
}

/// The message for an error on line number `lineno` (counting from 0).
pub open spec fn error_text(lineno: nat, m: Seq<char>, line: Seq<char>) -> Seq<char> {
    "line "@ + decimal(lineno + 1) + ": "@ + m + " (`"@ + line + "`)"@
}

/// The position of the first `->` among the words.
pub open spec fn arrow_pos(t: Seq<Seq<char>>) -> Option<int> {
    if exists|k: int| 0 <= k < t.len() && t[k] == "->"@ {
        Some(choose|k: int| 0 <= k < t.len() && t[k] == "->"@ && forall|j: int| 0 <= j < k ==> t[j] != "->"@)
    } else {
        None
    }
}

pub open spec fn plain_edge(target: u32) -> Successor {
    Successor { target: BasicBlock(target), activate: None }
}

/// Reads a statement or terminator line of the block being read.
pub open spec fn stmt_step(st: ParseState, t: Seq<Seq<char>>, lineno: nat, line: Seq<char>, forbidden: Seq<Seq<char>>) -> Step {
    if t.len() >= 4 && t[1] == "="@ && t[2] == "acquire"@ {
        if !intern_fits(st.locals, t[0]) {
            Step::Abort
        } else {
            Step::Next(add_stmt(with_local(st, t[0]), Stmt::Acquire { local: Local(intern_id(st.locals, t[0])), class: class_spec(t[3]) }))
        }
    } else if t[0] == "drop"@ || t[0] == "storage_dead"@ {
        if t.len() < 2 || !intern_fits(st.locals, t[1]) {
            Step::Abort
        } else {
            Step::Next(add_stmt(with_local(st, t[1]), Stmt::Kill { local: Local(intern_id(st.locals, t[1])) }))
        }
    } else if t[0] == "goto"@ {
        if t.len() < 2 || !intern_fits(st.labels, t[1]) {
            Step::Abort
        } else {
            Step::Next(set_term(with_label(st, t[1]), TermModel::Branch { succs: seq![plain_edge(intern_id(st.labels, t[1]))] }))
        }
    } else if t[0] == "ret"@ {
        Step::Next(set_term(st, TermModel::Return))
    } else if t[0] == "suspend"@ {
        suspend_step(st, t, lineno, line)
    } else if t[0] == "call"@ {
        call_step(st, t, lineno, line, forbidden)
    } else if t[0] == "drop_call"@ {
        drop_call_step(st, t, lineno, line)
    } else if t[0] == "forget_call"@ {
        forget_call_step(st, t, lineno, line)
    } else if t[0] == "try"@ {
        try_step(st, t, lineno, line)
    } else {
        Step::Fail(error_text(lineno, "unrecognised statement"@, line))
    }
}

/// `suspend -> bbN`.
pub open spec fn suspend_step(st: ParseState, t: Seq<Seq<char>>, lineno: nat, line: Seq<char>) -> Step {
    match arrow_pos(t) {
        None => Step::Fail(error_text(lineno, "suspend needs ->"@, line)),
        Some(a) => if a + 1 >= t.len() || !intern_fits(st.labels, t[a + 1]) {
            Step::Abort
        } else {
            Step::Next(set_term(with_label(st, t[a + 1]), TermModel::Suspend { target: intern_id(st.labels, t[a + 1]) }))
        },
    }
}

/// `call SYMBOL -> bbN`: the symbol is the words before the arrow, joined by spaces.
pub open spec fn call_step(st: ParseState, t: Seq<Seq<char>>, lineno: nat, line: Seq<char>, forbidden: Seq<Seq<char>>) -> Step {
    match arrow_pos(t) {
        None => Step::Fail(error_text(lineno, "call needs ->"@, line)),
        Some(a) => {
            let sym = join_words(t.subrange(1, a));
            if a + 1 >= t.len() || !intern_fits(st.labels, t[a + 1]) {
                Step::Abort
            } else {
                Step::Next(set_term(with_label(st, t[a + 1]), TermModel::Call {
                    def_path: sym,
                    is_foreign: true,
                    is_forbidden: forbidden.contains(sym),
                    target: intern_id(st.labels, t[a + 1]),
                }))
            }
        },
    }
}

/// `drop_call LOCAL -> bbN`.
pub open spec fn drop_call_step(st: ParseState, t: Seq<Seq<char>>, lineno: nat, line: Seq<char>) -> Step {
    match arrow_pos(t) {
        None => Step::Fail(error_text(lineno, "drop_call needs ->"@, line)),
        Some(a) => if !intern_fits(st.locals, t[1]) {
            Step::Abort
        } else {
            let s1 = with_local(st, t[1]);
            if a + 1 >= t.len() || !intern_fits(s1.labels, t[a + 1]) {
                Step::Abort
            } else {
                Step::Next(set_term(with_label(s1, t[a + 1]), TermModel::Drop {
                    local: intern_id(st.locals, t[1]),
                    target: intern_id(s1.labels, t[a + 1]),
                }))
            }
        },
    }
}

/// `forget_call LOCAL -> bbN`: a call that does not release the guard.
pub open spec fn forget_call_step(st: ParseState, t: Seq<Seq<char>>, lineno: nat, line: Seq<char>) -> Step {
    match arrow_pos(t) {
        None => Step::Fail(error_text(lineno, "forget_call needs ->"@, line)),
        Some(a) => if a + 1 >= t.len() || !intern_fits(st.labels, t[a + 1]) {
            Step::Abort
        } else {
            Step::Next(set_term(with_label(st, t[a + 1]), TermModel::Call {
                def_path: "core::mem::forget"@,
                is_foreign: false,
                is_forbidden: false,
                target: intern_id(st.labels, t[a + 1]),
            }))
        },
    }
}

/// `try LOCAL = KIND -> succ fail`: the guard is live on the success edge only.
pub open spec fn try_step(st: ParseState, t: Seq<Seq<char>>, lineno: nat, line: Seq<char>) -> Step {
    if t.len() < 3 || t[2] != "="@ {
        Step::Fail(error_text(lineno, "try syntax: try LOCAL = KIND -> succ fail"@, line))
    } else {
        match arrow_pos(t) {
            None => Step::Fail(error_text(lineno, "try needs ->"@, line)),
            Some(a) => if !intern_fits(st.locals, t[1]) || t.len() < 4 {
                Step::Abort
            } else {
                let s1 = with_local(st, t[1]);
                let local = Local(intern_id(st.locals, t[1]));
                let class = class_spec(t[3]);
                if a + 1 >= t.len() || !intern_fits(s1.labels, t[a + 1]) {
                    Step::Abort
                } else {
                    let s2 = with_label(s1, t[a + 1]);
                    let succ = intern_id(s1.labels, t[a + 1]);
                    if a + 2 >= t.len() {
                        Step::Fail(error_text(lineno, "try needs fail target"@, line))
                    } else if !intern_fits(s2.labels, t[a + 2]) {
                        Step::Abort
                    } else {
                        let s3 = with_label(s2, t[a + 2]);
                        let other = intern_id(s2.labels, t[a + 2]);
                        Step::Next(set_term(s3, TermModel::Branch {
                            succs: seq![
                                Successor { target: BasicBlock(succ), activate: Some((local, class)) },
                                plain_edge(other),
                            ],
                        }))
                    }
                }
            },
        }
    }
}

/// Reads line number `lineno` (counting from 0).
pub open spec fn line_step(st: ParseState, lineno: nat, raw: Seq<char>, forbidden: Seq<Seq<char>>) -> Step {
    let line = clean_line(raw);
    let t = words_of(line);
    if line.len() == 0 {
        Step::Next(st)
    } else if t.len() == 0 {
        Step::Abort
    } else if t[0] == "fn"@ {
        if t.len() < 2 {
            Step::Fail(error_text(lineno, "missing function name"@, line))
        } else {
            Step::Next(ParseState { name: Some(t[1]), ..flush_fn_spec(st) })
        }
    } else if st.name is None {
        Step::Fail(error_text(lineno, "statement outside a function"@, line))
    } else if line.last() == ':' {
        let s1 = flush_block_spec(st);
        let label = strip_colons(line);
        if !intern_fits(s1.labels, label) {
            Step::Abort
        } else {
            let id = intern_id(s1.labels, label);
            Step::Next(ParseState {
                labels: intern_names(s1.labels, label),
                entry: if s1.entry is None { Some(id) } else { s1.entry },
                order: s1.order.push(id),
                cur: Some((id, Seq::empty(), None)),
                ..s1
            })
        }
    } else if st.cur is None {
        Step::Fail(error_text(lineno, "statement outside a block"@, line))
    } else {
        stmt_step(st, t, lineno, line, forbidden)
    }
}

/// Reads the first `k` lines.
pub open spec fn run_lines(lines: Seq<Seq<char>>, forbidden: Seq<Seq<char>>, k: int) -> Step
    decreases k,
{
    if k <= 0 {
        Step::Next(start_state())
    } else {
        match run_lines(lines, forbidden, k - 1) {
            Step::Next(st) => line_step(st, (k - 1) as nat, lines[k - 1], forbidden),
            other => other,
        }
    }
}

/// The functions of a module text, or the message of its first error.
pub open spec fn parse_spec(src: Seq<char>, forbidden: Seq<Seq<char>>) -> ParseOutcome {
    parse_lines(lines_of(src), forbidden)
}

/// The functions that a list of lines holds, or the message of its first error.
pub open spec fn parse_lines(lines: Seq<Seq<char>>, forbidden: Seq<Seq<char>>) -> ParseOutcome {
    match run_lines(lines, forbidden, lines.len() as int) {
        Step::Next(st) => ParseOutcome::Parsed(flush_fn_spec(st).funcs),
        Step::Fail(m) => ParseOutcome::Rejected(m),
        Step::Abort => ParseOutcome::Aborted,
    }
}

/// Once reading stops, it stays stopped.
proof fn lemma_run_stops(lines: Seq<Seq<char>>, forbidden: Seq<Seq<char>>, k: int, m: int)
    requires
        0 <= k <= m,
        !(run_lines(lines, forbidden, k) is Next),
    ensures
        run_lines(lines, forbidden, m) == run_lines(lines, forbidden, k),
    decreases m - k,
{
    if m > k {
        lemma_run_stops(lines, forbidden, k, m - 1);
    }
}

// ---------------------------------------------------------------------------
// The parser
// ---------------------------------------------------------------------------

/// The character sequences of a list of strings.
pub open spec fn strings_view(v: Seq<String>) -> Seq<Seq<char>> {
    v.map_values(|x: String| x@)
}

/// The values of a list of functions.
pub open spec fn functions_view(v: Seq<Function>) -> Seq<FunctionModel> {
    v.map_values(|x: Function| x@)
}

/// The string holding exactly the characters `cs`: `String::from_iter` over
/// `&char` appends each character in turn.
#[verifier::external_body]
fn string_from_chars(cs: &Vec<char>) -> (s: String)
    ensures
        s@ == cs@,
{
    String::from_iter(cs)
}

/// The result of reading a whole module.
pub enum ModuleText {
    /// The functions of the module.
    Parsed(Vec<Function>),
    /// The message of the first error.
    Rejected(String),
    /// A line could not be read at all: an operand is missing where one is
    /// indexed, or more than `u32::MAX` names were interned in one function.
    Aborted,
}

impl View for ModuleText {
    type V = ParseOutcome;

    open spec fn view(&self) -> ParseOutcome {
        match self {
            ModuleText::Parsed(fs) => ParseOutcome::Parsed(functions_view(fs@)),
            ModuleText::Rejected(m) => ParseOutcome::Rejected(m@),
            ModuleText::Aborted => ParseOutcome::Aborted,
        }
    }
}

enum LineResult {
    Next,
    Fail(Vec<char>),
    Abort,
}

spec fn line_result_is(r: LineResult, step: Step, after: ParseState) -> bool {
    match r {
        LineResult::Next => step == Step::Next(after),
        LineResult::Fail(m) => step == Step::Fail(m@),
        LineResult::Abort => step is Abort,
    }
}

fn error_message(lineno: usize, m: &str, line: &Vec<char>) -> (r: Vec<char>)
    requires
        lineno < usize::MAX,
    ensures
        r@ == error_text(lineno as nat, m@, line@),
{
    let mut r = chars_of("line ");
    let mut d = decimal_chars(lineno + 1);
    r.append(&mut d);
    let mut x = chars_of(": ");
    r.append(&mut x);
    let mut y = chars_of(m);
    r.append(&mut y);
    let mut z = chars_of(" (`");
    r.append(&mut z);
    let mut w = line.clone();
    r.append(&mut w);
    let mut e = chars_of("`)");
    r.append(&mut e);
    r
}

fn find_arrow(t: &Vec<Vec<char>>) -> (r: Option<usize>)
    ensures
        match r {
            None => arrow_pos(seqs_view(t@)) is None,
            Some(a) => arrow_pos(seqs_view(t@)) == Some(a as int) && a < t@.len() && seqs_view(t@)[a as int] == "->"@,
        },
{
    let ghost ts = seqs_view(t@);
    let mut k: usize = 0;
    while k < t.len()
        invariant
            k <= t@.len(),
            ts == seqs_view(t@),
            forall|j: int| 0 <= j < k ==> ts[j] != "->"@,
        decreases t@.len() - k,
    {
        if is_word(&t[k], "->") {
            proof {
                assert(ts[k as int] == "->"@);
                let c = choose|c: int| 0 <= c < ts.len() && ts[c] == "->"@ && forall|j: int| 0 <= j < c ==> ts[j] != "->"@;
                assert(0 <= k < ts.len() && ts[k as int] == "->"@ && forall|j: int| 0 <= j < k ==> ts[j] != "->"@);
                if c < k {
                } else if c > k {
                    assert(ts[k as int] != "->"@);
                }
            }
            return Some(k);
        }
        k = k + 1;
    }
    None
}

fn is_forbidden(sym: &String, forbidden: &[String]) -> (b: bool)
    ensures
        b == strings_view(forbidden@).contains(sym@),
{
    let ghost fv = strings_view(forbidden@);
    let mut i: usize = 0;
    while i < forbidden.len()
        invariant
            i <= forbidden@.len(),
            fv == strings_view(forbidden@),
            forall|k: int| 0 <= k < i ==> fv[k] != sym@,
        decreases forbidden@.len() - i,
    {
        if forbidden[i] == *sym {
            assert(fv[i as int] == sym@);
            return true;
        }
        i = i + 1;
    }
    false
}

/// The state of the parser while it reads a module.
struct Reader {
    funcs: Vec<Function>,
    name: Option<Vec<char>>,
    intern: Interner,
    blocks: BTreeMap<u32, Block>,
    order: Vec<BasicBlock>,
    entry: Option<BasicBlock>,
    cur: Option<(BasicBlock, Vec<Stmt>, Option<Term>)>,
}

impl View for Reader {
    type V = ParseState;

    closed spec fn view(&self) -> ParseState {
        ParseState {
            funcs: functions_view(self.funcs@),
            name: match self.name {
                Some(v) => Some(v@),
                None => None,
            },
            locals: seqs_view(self.intern.locals@),
            labels: seqs_view(self.intern.blocks@),
            blocks: Map::new(|k: u32| self.blocks@.contains_key(k), |k: u32| self.blocks@[k]@),
            order: self.order@.map_values(|b: BasicBlock| b.0),
            entry: match self.entry {
                Some(b) => Some(b.0),
                None => None,
            },
            cur: match self.cur {
                Some(c) => Some((c.0.0, c.1@, match c.2 {
                    Some(t) => Some(t@),
                    None => None,
                })),
                None => None,
            },
        }
    }
}

impl Reader {
    closed spec fn wf(&self) -> bool {
        self.intern.wf()
    }

    fn new() -> (r: Reader)
        ensures
            r.wf(),
            r@ == start_state(),
    {
        let r = Reader {
            funcs: Vec::new(),
            name: None,
            intern: Interner::new(),
            blocks: BTreeMap::new(),
            order: Vec::new(),
            entry: None,
            cur: None,
        };
        assert(functions_view(r.funcs@) =~= Seq::<FunctionModel>::empty());
        assert(r.order@.map_values(|b: BasicBlock| b.0) =~= Seq::<u32>::empty());
        assert(Map::new(|k: u32| r.blocks@.contains_key(k), |k: u32| r.blocks@[k]@) =~= Map::<u32, BlockModel>::empty());
        r
    }

    fn flush_block(&mut self)
        requires
            old(self).wf(),
        ensures
            final(self).wf(),
            final(self)@ == flush_block_spec(old(self)@),
    {
        let c = self.cur.take();
        match c {
            Some((id, stmts, term)) => {
                let term = match term {
                    Some(t) => t,
                    None => Term::Return,
                };
                let ghost old_blocks = Map::new(|k: u32| self.blocks@.contains_key(k), |k: u32| self.blocks@[k]@);
                let b = Block { id, stmts, term };
                let ghost bv = b@;
                self.blocks.insert(id.0, b);
                assert(Map::new(|k: u32| self.blocks@.contains_key(k), |k: u32| self.blocks@[k]@) =~= old_blocks.insert(
                    id.0,
                    bv,
                ));
            },
            None => {},
        }
    }

    fn flush_fn(&mut self)
        requires
            old(self).wf(),
        ensures
            final(self).wf(),
            final(self)@ == flush_fn_spec(old(self)@),
    {
        if self.name.is_some() {
            let n = match self.name.take() {
                Some(n) => n,
                None => { return; },
            };
            let ghost mid = self@;
            self.flush_block();
            let ghost s1 = flush_block_spec(mid);
            let entry = match self.entry.take() {
                Some(e) => e,
                None => BasicBlock(0),
            };
            let mut blocks: BTreeMap<u32, Block> = BTreeMap::new();
            std::mem::swap(&mut blocks, &mut self.blocks);
            let mut order: Vec<BasicBlock> = Vec::new();
            std::mem::swap(&mut order, &mut self.order);
            let name = string_from_chars(&n);
            let f = Function { name, entry, blocks, order };
            let ghost fv = f@;
            let ghost funcs0 = functions_view(self.funcs@);
            self.funcs.push(f);
            self.intern = Interner::new();
            proof {
                assert(functions_view(self.funcs@) =~= funcs0.push(fv));
                assert(self.order@.map_values(|b: BasicBlock| b.0) =~= Seq::<u32>::empty());
                assert(Map::new(|k: u32| self.blocks@.contains_key(k), |k: u32| self.blocks@[k]@) =~= Map::<
                    u32,
                    BlockModel,
                >::empty());
            }
        }
    }

    fn add_stmt(&mut self, x: Stmt)
        ensures
            final(self).wf() == old(self).wf(),
            final(self)@ == add_stmt(old(self)@, x),
    {
        let c = self.cur.take();
        match c {
            Some((id, stmts, term)) => {
                let mut stmts = stmts;
                stmts.push(x);
                self.cur = Some((id, stmts, term));
            },
            None => {},
        }
    }

    fn set_term(&mut self, t: Term)
        ensures
            final(self).wf() == old(self).wf(),
            final(self)@ == set_term(old(self)@, t@),
    {
        let c = self.cur.take();
        match c {
            Some((id, stmts, _)) => {
                self.cur = Some((id, stmts, Some(t)));
            },
            None => {},
        }
    }

    fn fits_local(&self, name: &Vec<char>) -> (b: bool)
        ensures
            b == intern_fits(self@.locals, name@),
    {
        fits(&self.intern.locals, name)
    }

    fn fits_label(&self, name: &Vec<char>) -> (b: bool)
        ensures
            b == intern_fits(self@.labels, name@),
    {
        fits(&self.intern.blocks, name)
    }

    fn local(&mut self, name: &Vec<char>) -> (l: Local)
        requires
            old(self).wf(),
            intern_fits(old(self)@.locals, name@),
        ensures
            final(self).wf(),
            final(self)@ == with_local(old(self)@, name@),
            l.0 == intern_id(old(self)@.locals, name@),
    {
        self.intern.local(name)
    }

    fn label(&mut self, name: &Vec<char>) -> (b: BasicBlock)
        requires
            old(self).wf(),
            intern_fits(old(self)@.labels, name@),
        ensures
            final(self).wf(),
            final(self)@ == with_label(old(self)@, name@),
            b.0 == intern_id(old(self)@.labels, name@),
    {
        self.intern.block(name)
    }
}

impl Reader {
    /// Reads a statement or terminator line of the block being read.
    fn read_stmt(&mut self, t: &Vec<Vec<char>>, lineno: usize, line: &Vec<char>, forbidden: &[String]) -> (r: LineResult)
        requires
            old(self).wf(),
            t@.len() > 0,
            lineno < usize::MAX,
        ensures
            final(self).wf(),
            line_result_is(r, stmt_step(old(self)@, seqs_view(t@), lineno as nat, line@, strings_view(forbidden@)), final(self)@),
    {
        let ghost ts = seqs_view(t@);
        let ghost st = self@;
        let ghost fb = strings_view(forbidden@);
        if t.len() >= 4 && is_word(&t[1], "=") && is_word(&t[2], "acquire") {
            if !self.fits_local(&t[0]) {
                return LineResult::Abort;
            }
            let local = self.local(&t[0]);
            let class = class_of(&t[3]);
            self.add_stmt(Stmt::Acquire { local, class });
            return LineResult::Next;
        }
        if is_word(&t[0], "drop") || is_word(&t[0], "storage_dead") {
            if t.len() < 2 || !self.fits_local(&t[1]) {
                return LineResult::Abort;
            }
            let local = self.local(&t[1]);
            self.add_stmt(Stmt::Kill { local });
            return LineResult::Next;
        }
        if is_word(&t[0], "goto") {
            if t.len() < 2 || !self.fits_label(&t[1]) {
                return LineResult::Abort;
            }
            let target = self.label(&t[1]);
            let succs = vec![Successor::plain(target)];
            assert(succs@ =~= seq![plain_edge(target.0)]);
            self.set_term(Term::Branch { succs });
            return LineResult::Next;
        }
        if is_word(&t[0], "ret") {
            self.set_term(Term::Return);
            return LineResult::Next;
        }
        if is_word(&t[0], "suspend") {
            let a = match find_arrow(t) {
                Some(a) => a,
                None => { return LineResult::Fail(error_message(lineno, "suspend needs ->", line)); },
            };
            if a + 1 >= t.len() || !self.fits_label(&t[a + 1]) {
                return LineResult::Abort;
            }
            let target = self.label(&t[a + 1]);
            self.set_term(Term::Suspend { target });
            return LineResult::Next;
        }
        if is_word(&t[0], "call") {
            let a = match find_arrow(t) {
                Some(a) => a,
                None => { return LineResult::Fail(error_message(lineno, "call needs ->", line)); },
            };
            proof {
                reveal_strlit("call");
                reveal_strlit("->");
                assert(ts[0] == t@[0]@);
                assert(ts[0].len() != ts[a as int].len());
            }
            let sym_chars = join_range(t, 1, a);
            assert(ts.subrange(1, a as int) =~= seqs_view(t@).subrange(1, a as int));
            let sym = string_from_chars(&sym_chars);
            let forbid = is_forbidden(&sym, forbidden);
            if a + 1 >= t.len() || !self.fits_label(&t[a + 1]) {
                return LineResult::Abort;
            }
            let target = self.label(&t[a + 1]);
            self.set_term(Term::Call { callee: Callee { def_path: sym, is_foreign: true, is_forbidden: forbid }, target });
            return LineResult::Next;
        }
        if is_word(&t[0], "drop_call") {
            let a = match find_arrow(t) {
                Some(a) => a,
                None => { return LineResult::Fail(error_message(lineno, "drop_call needs ->", line)); },
            };
            proof {
                reveal_strlit("drop_call");
                reveal_strlit("->");
                assert(ts[0] == t@[0]@);
                assert(ts[0].len() != ts[a as int].len());
            }
            if !self.fits_local(&t[1]) {
                return LineResult::Abort;
            }
            let local = self.local(&t[1]);
            if a + 1 >= t.len() || !self.fits_label(&t[a + 1]) {
                return LineResult::Abort;
            }
            let target = self.label(&t[a + 1]);
            self.set_term(Term::Drop { local, target });
            return LineResult::Next;
        }
        if is_word(&t[0], "forget_call") {
            let a = match find_arrow(t) {
                Some(a) => a,
                None => { return LineResult::Fail(error_message(lineno, "forget_call needs ->", line)); },
            };
            if a + 1 >= t.len() || !self.fits_label(&t[a + 1]) {
                return LineResult::Abort;
            }
            let target = self.label(&t[a + 1]);
            let def_path = "core::mem::forget".to_owned();
            self.set_term(Term::Call { callee: Callee { def_path, is_foreign: false, is_forbidden: false }, target });
            return LineResult::Next;
        }
        if is_word(&t[0], "try") {
            if t.len() < 3 || !is_word(&t[2], "=") {
                return LineResult::Fail(error_message(lineno, "try syntax: try LOCAL = KIND -> succ fail", line));
            }
            let a = match find_arrow(t) {
                Some(a) => a,
                None => { return LineResult::Fail(error_message(lineno, "try needs ->", line)); },
            };
            if !self.fits_local(&t[1]) || t.len() < 4 {
                return LineResult::Abort;
            }
            let local = self.local(&t[1]);
            let class = class_of(&t[3]);
            if a + 1 >= t.len() || !self.fits_label(&t[a + 1]) {
                return LineResult::Abort;
            }
            let succ = self.label(&t[a + 1]);
            if a + 2 >= t.len() {
                return LineResult::Fail(error_message(lineno, "try needs fail target", line));
            }
            if !self.fits_label(&t[a + 2]) {
                return LineResult::Abort;
            }
            let other = self.label(&t[a + 2]);
            let succs = vec![Successor { target: succ, activate: Some((local, class)) }, Successor::plain(other)];
            assert(succs@ =~= seq![Successor { target: succ, activate: Some((local, class)) }, plain_edge(other.0)]);
            self.set_term(Term::Branch { succs });
            return LineResult::Next;
        }
        LineResult::Fail(error_message(lineno, "unrecognised statement", line))
    }

    /// Reads line number `lineno` (counting from 0).
    fn read_line(&mut self, lineno: usize, raw: &Vec<char>, forbidden: &[String]) -> (r: LineResult)
        requires
            old(self).wf(),
            lineno < usize::MAX,
        ensures
            final(self).wf(),
            line_result_is(r, line_step(old(self)@, lineno as nat, raw@, strings_view(forbidden@)), final(self)@),
    {
        let line = clean(raw);
        if line.len() == 0 {
            return LineResult::Next;
        }
        let t = split_words(&line);
        if t.len() == 0 {
            return LineResult::Abort;
        }
        if is_word(&t[0], "fn") {
            if t.len() < 2 {
                return LineResult::Fail(error_message(lineno, "missing function name", &line));
            }
            self.flush_fn();
            self.name = Some(t[1].clone());
            return LineResult::Next;
        }
        if self.name.is_none() {
            return LineResult::Fail(error_message(lineno, "statement outside a function", &line));
        }
        if line[line.len() - 1] == ':' {
            self.flush_block();
            let label = strip_trailing_colons(&line);
            if !self.fits_label(&label) {
                return LineResult::Abort;
            }
            let id = self.label(&label);
            if self.entry.is_none() {
                self.entry = Some(id);
            }
            let ghost o0 = self.order@;
            self.order.push(id);
            assert(self.order@.map_values(|b: BasicBlock| b.0) =~= o0.map_values(|b: BasicBlock| b.0).push(id.0));
            self.cur = Some((id, Vec::new(), None));
            return LineResult::Next;
        }
        if self.cur.is_none() {
            return LineResult::Fail(error_message(lineno, "statement outside a block", &line));
        }
        self.read_stmt(&t, lineno, &line, forbidden)
    }
}

/// Reads a module of functions. Every call symbol listed in `forbidden` is
/// marked forbidden on its `Callee`. The result says which functions the text
/// holds, or which error stops it, or that a line cannot be read at all.
pub fn read_module(src: &str, forbidden: &[String]) -> (r: ModuleText)
    ensures
        r@ == parse_spec(src@, strings_view(forbidden@)),
{
    let chars = chars_of(src);
    let lines = split_lines(&chars);
    let ghost ls = lines_of(src@);
    let ghost fb = strings_view(forbidden@);
    let mut rd = Reader::new();
    let mut k: usize = 0;
    while k < lines.len()
        invariant
            k <= lines@.len(),
            lines@.map_values(|l: Vec<char>| l@) == ls,
            ls == lines_of(src@),
            fb == strings_view(forbidden@),
            rd.wf(),
            run_lines(ls, fb, k as int) == Step::Next(rd@),
        decreases lines@.len() - k,
    {
        assert(ls[k as int] == lines@[k as int]@);
        let ghost st0 = rd@;
        assert(run_lines(ls, fb, k + 1) == line_step(st0, k as nat, ls[k as int], fb));
        match rd.read_line(k, &lines[k], forbidden) {
            LineResult::Next => {},
            LineResult::Fail(m) => {
                proof {
                    assert(run_lines(ls, fb, k + 1) == Step::Fail(m@));
                    assert(ls.len() == lines@.len());
                    lemma_run_stops(ls, fb, k + 1, ls.len() as int);
                    assert(run_lines(ls, fb, ls.len() as int) == Step::Fail(m@));
                }
                return ModuleText::Rejected(string_from_chars(&m));
            },
            LineResult::Abort => {
                proof {
                    assert(ls.len() == lines@.len());
                    lemma_run_stops(ls, fb, k + 1, ls.len() as int);
                }
                return ModuleText::Aborted;
            },
        }
        k = k + 1;
    }
    rd.flush_fn();
    ModuleText::Parsed(rd.funcs)
}

/// Parses a module of functions; `forbidden` is the detector knowledge base:
/// any call symbol listed there is marked `is_forbidden` on its `Callee`.
/// Inputs on which a line cannot be read at all are excluded (see `read_module`).
pub fn parse_module(src: &str, forbidden: &[String]) -> (r: Result<Vec<Function>, String>)
    requires
        !(parse_spec(src@, strings_view(forbidden@)) is Aborted),
    ensures
        match r {
            Ok(fs) => parse_spec(src@, strings_view(forbidden@)) == ParseOutcome::Parsed(functions_view(fs@)),
            Err(e) => parse_spec(src@, strings_view(forbidden@)) == ParseOutcome::Rejected(e@),
        },
{
    match read_module(src, forbidden) {
        ModuleText::Parsed(fs) => Ok(fs),
        ModuleText::Rejected(e) => Err(e),
        ModuleText::Aborted => {
            assert(false);
            Err(String::new())
        },
    }
}

/// The distinct non-empty cleaned lines of the first `n` lines, in order of
/// first appearance.
pub open spec fn symbols_upto(lines: Seq<Seq<char>>, n: int) -> Seq<Seq<char>>
    decreases n,
{
    if n <= 0 {
        Seq::empty()
    } else {
        let r = symbols_upto(lines, n - 1);
        let l = clean_line(lines[n - 1]);
        if l.len() > 0 && !r.contains(l) { r.push(l) } else { r }
    }
}

/// The entries of a symbol list: one symbol per line, `#` starts a comment,
/// blanks around a symbol are dropped, empty lines are skipped and a symbol
/// listed again is kept once.
pub open spec fn symbol_list_spec(text: Seq<char>) -> Seq<Seq<char>> {
    symbols_upto(lines_of(text), lines_of(text).len() as int)
}

/// Whether `x` is one of the names in `v`.
fn contains_chars(v: &Vec<Vec<char>>, x: &Vec<char>) -> (b: bool)
    ensures
        b == seqs_view(v@).contains(x@),
{
    let mut i: usize = 0;
    while i < v.len()
        invariant
            i <= v@.len(),
            forall|k: int| 0 <= k < i ==> v@[k]@ != x@,
        decreases v@.len() - i,
    {
        if same_chars(v[i].as_slice(), x.as_slice()) {
            assert(seqs_view(v@)[i as int] == x@);
            return true;
        }
        i = i + 1;
    }
    proof {
        if seqs_view(v@).contains(x@) {
            let k = choose|k: int| 0 <= k < seqs_view(v@).len() && seqs_view(v@)[k] == x@;
            assert(v@[k]@ == x@);
        }
    }
    false
}

/// Reads a symbol list (such as the forbidden-callee knowledge base): its
/// symbols in order of first appearance, each once.
pub fn parse_symbol_list(text: &str) -> (r: Vec<String>)
    ensures
        strings_view(r@) == symbol_list_spec(text@),
        strings_view(r@).no_duplicates(),
{
    let chars = chars_of(text);
    let lines = split_lines(&chars);
    let ghost ls = lines_of(text@);
    let mut r: Vec<String> = Vec::new();
    let mut seen: Vec<Vec<char>> = Vec::new();
    let mut k: usize = 0;
    while k < lines.len()
        invariant
            k <= lines@.len(),
            lines@.map_values(|l: Vec<char>| l@) == ls,
            ls == lines_of(text@),
            strings_view(r@) == symbols_upto(ls, k as int),
            seqs_view(seen@) == strings_view(r@),
            strings_view(r@).no_duplicates(),
        decreases lines@.len() - k,
    {
        assert(ls[k as int] == lines@[k as int]@);
        let l = clean(&lines[k]);
        if l.len() > 0 && !contains_chars(&seen, &l) {
            let ghost r0 = strings_view(r@);
            let sym = string_from_chars(&l);
            r.push(sym);
            seen.push(l.clone());
            assert(strings_view(r@) =~= r0.push(l@));
            assert(seqs_view(seen@) =~= r0.push(l@));
            assert forall|i: int, j: int| 0 <= i < j < r0.len() + 1 implies r0.push(l@)[i] != r0.push(l@)[j] by {
                if j == r0.len() {
                    assert(r0.push(l@)[i] == r0[i]);
                }
            }
        }
        k = k + 1;
    }
    r
}

// ---------------------------------------------------------------------------
// Laws
// ---------------------------------------------------------------------------

/// The number of the block being read, if any.
pub open spec fn cur_block(st: ParseState) -> Option<u32> {
    match st.cur {
        Some(c) => Some(c.0),
        None => None,
    }
}

/// The shape of a parsed function: its blocks are exactly the blocks of its
/// order, each block carries its own number, the entry is block 0 and the
/// order starts with it.
pub open spec fn function_shaped(g: FunctionModel) -> bool {
    &&& g.has_all_blocks()
    &&& forall|k: u32| #[trigger] g.blocks.contains_key(k) ==> g.order.contains(k) && g.blocks[k].id == k
    &&& g.entry == 0
    &&& g.order.len() > 0 ==> g.order[0] == 0
}

/// What the parser keeps true of its state between lines.
pub open spec fn state_shaped(st: ParseState) -> bool {
    &&& forall|i: int| 0 <= i < st.funcs.len() ==> function_shaped(#[trigger] st.funcs[i])
    &&& forall|i: int| 0 <= i < st.order.len() ==> {
        ||| st.blocks.contains_key(#[trigger] st.order[i])
        ||| cur_block(st) == Some(st.order[i])
    }
    &&& forall|k: u32| #[trigger] st.blocks.contains_key(k) ==> st.order.contains(k) && st.blocks[k].id == k
    &&& (cur_block(st) matches Some(c) ==> st.order.contains(c))
    &&& st.entry == (if st.order.len() == 0 { None } else { Some(st.order[0]) })
    &&& st.order.len() == 0 ==> st.labels.len() == 0 && st.cur is None
    &&& st.order.len() > 0 ==> st.order[0] == 0
}

/// The name of the function that a line starts, if it starts one.
pub open spec fn fn_name_of(raw: Seq<char>) -> Option<Seq<char>> {
    let line = clean_line(raw);
    let t = words_of(line);
    if line.len() > 0 && t.len() >= 2 && t[0] == "fn"@ { Some(t[1]) } else { None }
}

/// The names that the first `k` lines give to functions, in order.
pub open spec fn fn_names_upto(lines: Seq<Seq<char>>, k: int) -> Seq<Seq<char>>
    decreases k,
{
    if k <= 0 {
        Seq::empty()
    } else {
        let r = fn_names_upto(lines, k - 1);
        match fn_name_of(lines[k - 1]) {
            Some(n) => r.push(n),
            None => r,
        }
    }
}

pub open spec fn names_of(fs: Seq<FunctionModel>) -> Seq<Seq<char>> {
    fs.map_values(|g: FunctionModel| g.name)
}

/// The functions finished so far and the one being read, by name.
pub open spec fn names_read(st: ParseState) -> Seq<Seq<char>> {
    match st.name {
        Some(n) => names_of(st.funcs).push(n),
        None => names_of(st.funcs),
    }
}

proof fn lemma_stmt_step_keeps_shape(st: ParseState, t: Seq<Seq<char>>, lineno: nat, line: Seq<char>, fb: Seq<Seq<char>>)
    requires
        st.cur is Some,
        t.len() > 0,
    ensures
        stmt_step(st, t, lineno, line, fb) matches Step::Next(s2) ==> {
            &&& s2.funcs == st.funcs
            &&& s2.name == st.name
            &&& s2.entry == st.entry
            &&& s2.order == st.order
            &&& s2.blocks == st.blocks
            &&& s2.cur is Some
            &&& cur_block(s2) == cur_block(st)
        },
{
}

proof fn lemma_flush_block_shaped(st: ParseState)
    requires
        state_shaped(st),
    ensures
        state_shaped(flush_block_spec(st)),
        flush_block_spec(st).cur is None,
        forall|i: int| 0 <= i < st.order.len() ==> #[trigger] flush_block_spec(st).blocks.contains_key(st.order[i]),
        flush_block_spec(st).funcs == st.funcs,
        flush_block_spec(st).name == st.name,
        flush_block_spec(st).order == st.order,
        flush_block_spec(st).labels == st.labels,
{
    let s1 = flush_block_spec(st);
    assert forall|i: int| 0 <= i < st.order.len() implies #[trigger] s1.blocks.contains_key(st.order[i]) by {
        assert(st.blocks.contains_key(st.order[i]) || cur_block(st) == Some(st.order[i]));
    }
    assert forall|k: u32| #[trigger] s1.blocks.contains_key(k) implies s1.order.contains(k) && s1.blocks[k].id == k by {
        if !st.blocks.contains_key(k) {
            assert(cur_block(st) == Some(k));
        }
    }
}

proof fn lemma_flush_fn_shaped(st: ParseState)
    requires
        state_shaped(st),
    ensures
        state_shaped(flush_fn_spec(st)),
        flush_fn_spec(st).name is None,
        names_of(flush_fn_spec(st).funcs) == names_read(st),
{
    if let Some(n) = st.name {
        let s1 = flush_block_spec(st);
        lemma_flush_block_shaped(st);
        let s3 = flush_fn_spec(st);
        let g = s3.funcs.last();
        assert(function_shaped(g)) by {
            assert forall|i: int| 0 <= i < g.order.len() implies #[trigger] g.blocks.contains_key(g.order[i]) by {
                assert(s1.blocks.contains_key(st.order[i]));
            }
        }
        assert forall|i: int| 0 <= i < s3.funcs.len() implies function_shaped(#[trigger] s3.funcs[i]) by {
            if i < s3.funcs.len() - 1 {
                assert(s3.funcs[i] == st.funcs[i]);
            }
        }
        assert(names_of(s3.funcs) =~= names_of(st.funcs).push(n));
        assert(s3.order =~= Seq::<u32>::empty());
    }
}

proof fn lemma_line_step_shaped(st: ParseState, lineno: nat, raw: Seq<char>, fb: Seq<Seq<char>>)
    requires
        state_shaped(st),
    ensures
        line_step(st, lineno, raw, fb) matches Step::Next(s2) ==> state_shaped(s2) && names_read(s2) == (
        match fn_name_of(raw) {
            Some(n) => names_read(st).push(n),
            None => names_read(st),
        }),
{
    let line = clean_line(raw);
    let t = words_of(line);
    if line.len() > 0 && t.len() > 0 && t[0] != "fn"@ && st.name is Some && line.last() != ':' && st.cur is Some {
        lemma_stmt_step_keeps_shape(st, t, lineno, line, fb);
        if let Step::Next(s2) = stmt_step(st, t, lineno, line, fb) {
            assert forall|i: int| 0 <= i < s2.order.len() implies {
                ||| s2.blocks.contains_key(#[trigger] s2.order[i])
                ||| cur_block(s2) == Some(s2.order[i])
            } by {
                assert(st.blocks.contains_key(st.order[i]) || cur_block(st) == Some(st.order[i]));
            }
            assert forall|k: u32| #[trigger] s2.blocks.contains_key(k) implies s2.order.contains(k) && s2.blocks[k].id == k by {
                assert(st.blocks.contains_key(k));
            }
        }
    }
    if line.len() > 0 && t.len() >= 2 && t[0] == "fn"@ {
        lemma_flush_fn_shaped(st);
        let s3 = flush_fn_spec(st);
        let s2 = ParseState { name: Some(t[1]), ..s3 };
        assert(names_read(s2) == names_of(s3.funcs).push(t[1]));
    }
    if line.len() > 0 && t.len() > 0 && t[0] != "fn"@ && st.name is Some && line.last() == ':' {
        let s1 = flush_block_spec(st);
        lemma_flush_block_shaped(st);
        let label = strip_colons(line);
        if intern_fits(s1.labels, label) {
            let id = intern_id(s1.labels, label);
            let s2 = ParseState {
                labels: intern_names(s1.labels, label),
                entry: if s1.entry is None { Some(id) } else { s1.entry },
                order: s1.order.push(id),
                cur: Some((id, Seq::empty(), None)),
                ..s1
            };
            if st.order.len() == 0 {
                assert(s1.labels.len() == 0);
                assert(!s1.labels.contains(label));
                assert(id == 0);
            }
            assert(s2.order.contains(id)) by {
                assert(s2.order[s2.order.len() - 1] == id);
            }
            assert forall|i: int| 0 <= i < s2.order.len() implies {
                ||| s2.blocks.contains_key(#[trigger] s2.order[i])
                ||| cur_block(s2) == Some(s2.order[i])
            } by {
                if i < s1.order.len() {
                    assert(s2.order[i] == st.order[i]);
                }
            }
            assert forall|k: u32| #[trigger] s2.blocks.contains_key(k) implies s2.order.contains(k) && s2.blocks[k].id == k by {
                assert(s1.order.contains(k));
                let i = choose|i: int| 0 <= i < s1.order.len() && s1.order[i] == k;
                assert(s2.order[i] == k);
            }
        }
    }
}

proof fn lemma_run_shaped(lines: Seq<Seq<char>>, fb: Seq<Seq<char>>, k: int)
    requires
        0 <= k <= lines.len(),
    ensures
        run_lines(lines, fb, k) matches Step::Next(st) ==> state_shaped(st) && names_read(st) == fn_names_upto(
            lines,
            k,
        ),
    decreases k,
{
    if k > 0 {
        lemma_run_shaped(lines, fb, k - 1);
        if let Step::Next(st) = run_lines(lines, fb, k - 1) {
            lemma_line_step_shaped(st, (k - 1) as nat, lines[k - 1], fb);
        }
    } else {
        assert(names_read(start_state()) =~= Seq::<Seq<char>>::empty());
    }
}

/// The shape of what the parser produces: in every function the keys of the
/// blocks are exactly the block numbers in the order, each block carries its
/// own number, the entry is block 0 and the order starts with it; and there
/// is one function per `fn NAME` line, named as that line names it, in order.
pub proof fn lemma_parsed_functions_complete(src: Seq<char>, forbidden: Seq<Seq<char>>)
    ensures
        parse_spec(src, forbidden) matches ParseOutcome::Parsed(fs) ==> {
            &&& forall|i: int| 0 <= i < fs.len() ==> function_shaped(#[trigger] fs[i])
            &&& names_of(fs) == fn_names_upto(lines_of(src), lines_of(src).len() as int)
        },
{
    let lines = lines_of(src);
    lemma_run_shaped(lines, forbidden, lines.len() as int);
    if let Step::Next(st) = run_lines(lines, forbidden, lines.len() as int) {
        lemma_flush_fn_shaped(st);
    }
}

/// A call is marked forbidden exactly when it is a call of a symbol that the
/// forbidden list holds.
pub open spec fn call_marked(t: TermModel, forbidden: Seq<Seq<char>>) -> bool {
    t matches TermModel::Call { def_path, is_foreign, is_forbidden, .. } ==> is_forbidden == (is_foreign
        && forbidden.contains(def_path))
}

pub open spec fn blocks_marked(blocks: Map<u32, BlockModel>, forbidden: Seq<Seq<char>>) -> bool {
    forall|k: u32| #[trigger] blocks.contains_key(k) ==> call_marked(blocks[k].term, forbidden)
}

spec fn state_marked(st: ParseState, forbidden: Seq<Seq<char>>) -> bool {
    &&& forall|i: int| 0 <= i < st.funcs.len() ==> blocks_marked(#[trigger] st.funcs[i].blocks, forbidden)
    &&& blocks_marked(st.blocks, forbidden)
    &&& (st.cur matches Some(c) ==> (c.2 matches Some(t) ==> call_marked(t, forbidden)))
}

proof fn lemma_flush_marked(st: ParseState, fb: Seq<Seq<char>>)
    requires
        state_marked(st, fb),
    ensures
        state_marked(flush_block_spec(st), fb),
        state_marked(flush_fn_spec(st), fb),
{
    let s1 = flush_block_spec(st);
    assert(blocks_marked(s1.blocks, fb));
    if st.name is Some {
        let s3 = flush_fn_spec(st);
        assert forall|i: int| 0 <= i < s3.funcs.len() implies blocks_marked(#[trigger] s3.funcs[i].blocks, fb) by {
            if i < st.funcs.len() {
                assert(s3.funcs[i] == st.funcs[i]);
            }
        }
        assert(blocks_marked(s3.blocks, fb));
    }
}

proof fn lemma_line_step_marked(st: ParseState, lineno: nat, raw: Seq<char>, fb: Seq<Seq<char>>)
    requires
        state_marked(st, fb),
    ensures
        line_step(st, lineno, raw, fb) matches Step::Next(s2) ==> state_marked(s2, fb),
{
    let line = clean_line(raw);
    let t = words_of(line);
    lemma_flush_marked(st, fb);
    if line.len() > 0 && t.len() > 0 && t[0] != "fn"@ && st.name is Some && line.last() != ':' && st.cur is Some {
        lemma_stmt_step_keeps_shape(st, t, lineno, line, fb);
    }
}

proof fn lemma_run_marked(lines: Seq<Seq<char>>, fb: Seq<Seq<char>>, k: int)
    requires
        0 <= k <= lines.len(),
    ensures
        run_lines(lines, fb, k) matches Step::Next(st) ==> state_marked(st, fb),
    decreases k,
{
    if k > 0 {
        lemma_run_marked(lines, fb, k - 1);
        if let Step::Next(st) = run_lines(lines, fb, k - 1) {
            lemma_line_step_marked(st, (k - 1) as nat, lines[k - 1], fb);
        }
    }
}

/// In every parsed function, a call is marked forbidden exactly when it is a
/// call of a symbol (a `call` line, `is_foreign`) that the forbidden list holds.
pub proof fn lemma_calls_marked(src: Seq<char>, forbidden: Seq<Seq<char>>)
    ensures
        parse_spec(src, forbidden) matches ParseOutcome::Parsed(fs) ==> forall|i: int, k: u32|
            0 <= i < fs.len() && #[trigger] fs[i].blocks.contains_key(k) ==> call_marked(fs[i].blocks[k].term, forbidden),
{
    let lines = lines_of(src);
    lemma_run_marked(lines, forbidden, lines.len() as int);
    if let Step::Next(st) = run_lines(lines, forbidden, lines.len() as int) {
        lemma_flush_marked(st, forbidden);
        let fs = flush_fn_spec(st).funcs;
        assert forall|i: int, k: u32| 0 <= i < fs.len() && #[trigger] fs[i].blocks.contains_key(k) implies call_marked(
            fs[i].blocks[k].term,
            forbidden,
        ) by {
            assert(blocks_marked(fs[i].blocks, forbidden));
        }
    }
}

/// The spin_lock family of guard kinds (`spin_lock`, `raw_spin_lock`,
/// `spin_lock_irqsave`, `spin_lock_bh`, `local_irq_save`, `preempt_disable`)
/// disables preemption; every other kind is sleepable.
pub proof fn lemma_kind_classes(kind: Seq<char>)
    ensures
        class_spec(kind) == GuardClass::PreemptDisabling <==> (kind == "spin_lock"@ || kind == "raw_spin_lock"@
            || kind == "spin_lock_irqsave"@ || kind == "spin_lock_bh"@ || kind == "local_irq_save"@ || kind
            == "preempt_disable"@),
        class_spec(kind) == GuardClass::PreemptDisabling || class_spec(kind) == GuardClass::Sleepable,
{
}

/// A statement `LOCAL = acquire KIND ...` in a block appends an acquisition of
/// the local's number, preemption-disabling exactly for the spin_lock family.
pub proof fn lemma_acquire_line(st: ParseState, t: Seq<Seq<char>>, lineno: nat, line: Seq<char>, fb: Seq<Seq<char>>)
    requires
        st.cur is Some,
        t.len() >= 4,
        t[1] == "="@,
        t[2] == "acquire"@,
        intern_fits(st.locals, t[0]),
    ensures
        stmt_step(st, t, lineno, line, fb) is Next,
        (stmt_step(st, t, lineno, line, fb)->Next_0).cur is Some,
        ((stmt_step(st, t, lineno, line, fb)->Next_0).cur->0).1 == (st.cur->0).1.push(
            Stmt::Acquire {
                local: Local(intern_id(st.locals, t[0])),
                class: if t[3] == "spin_lock"@ || t[3] == "raw_spin_lock"@ || t[3] == "spin_lock_irqsave"@ || t[3]
                    == "spin_lock_bh"@ || t[3] == "local_irq_save"@ || t[3] == "preempt_disable"@ {
                    GuardClass::PreemptDisabling
                } else {
                    GuardClass::Sleepable
                },
            },
        ),
{
}

/// A line `try LOCAL = KIND -> succ fail` that parses ends the block in a
/// branch whose first edge activates the local, preemption-disabling exactly
/// for the spin_lock family, and whose second edge activates nothing.
pub proof fn lemma_try_line(st: ParseState, t: Seq<Seq<char>>, lineno: nat, line: Seq<char>)
    requires
        try_step(st, t, lineno, line) is Next,
        st.cur is Some,
    ensures
        ({
            let s2 = try_step(st, t, lineno, line)->Next_0;
            &&& s2.cur is Some
            &&& (s2.cur->0).2 is Some
            &&& (s2.cur->0).2->0 is Branch
            &&& ((s2.cur->0).2->0)->succs.len() == 2
            &&& ((s2.cur->0).2->0)->succs[0].activate == Some(
                (
                    Local(intern_id(st.locals, t[1])),
                    if t[3] == "spin_lock"@ || t[3] == "raw_spin_lock"@ || t[3] == "spin_lock_irqsave"@ || t[3]
                        == "spin_lock_bh"@ || t[3] == "local_irq_save"@ || t[3] == "preempt_disable"@ {
                        GuardClass::PreemptDisabling
                    } else {
                        GuardClass::Sleepable
                    },
                ),
            )
            &&& ((s2.cur->0).2->0)->succs[1].activate is None
        }),
{
}

/// `a` is the position of the first `->` among the words.
pub open spec fn first_arrow(t: Seq<Seq<char>>, a: int) -> bool {
    &&& 0 <= a < t.len()
    &&& t[a] == "->"@
    &&& forall|k: int| 0 <= k < a ==> t[k] != "->"@
}

proof fn lemma_min_arrow(t: Seq<Seq<char>>, k: int)
    requires
        0 <= k < t.len(),
        t[k] == "->"@,
    ensures
        exists|a: int| #[trigger] first_arrow(t, a),
    decreases k,
{
    if exists|j: int| 0 <= j < k && t[j] == "->"@ {
        let j = choose|j: int| 0 <= j < k && t[j] == "->"@;
        lemma_min_arrow(t, j);
    } else {
        assert(first_arrow(t, k));
    }
}

proof fn lemma_arrow_pos(t: Seq<Seq<char>>)
    ensures
        arrow_pos(t) matches Some(a) ==> first_arrow(t, a),
        arrow_pos(t) is None ==> forall|k: int| 0 <= k < t.len() ==> t[k] != "->"@,
{
    if exists|k: int| 0 <= k < t.len() && t[k] == "->"@ {
        let k = choose|k: int| 0 <= k < t.len() && t[k] == "->"@;
        lemma_min_arrow(t, k);
        let a = choose|a: int| #[trigger] first_arrow(t, a);
        assert(0 <= a < t.len() && t[a] == "->"@ && forall|j: int| 0 <= j < a ==> t[j] != "->"@);
    }
}

/// The word form of a statement line is not an acquisition.
pub open spec fn not_acquire_form(t: Seq<Seq<char>>) -> bool {
    !(t.len() >= 4 && t[1] == "="@ && t[2] == "acquire"@)
}

/// What each other statement line read into the block being read does, when
/// it is read: `drop`/`storage_dead` append a release of the local; `goto`
/// ends the block in one plain edge; `ret` in a return; `suspend -> L` in a
/// suspend point to `L`; `call W.. -> L` in a foreign call of the words before
/// the first arrow joined by spaces, marked forbidden exactly when the list
/// holds it; `drop_call G -> L` in a drop of `G`; `forget_call G -> L` in a
/// call of `core::mem::forget` that is neither foreign nor forbidden. The
/// block keeps its number, and a terminator line leaves its statements alone.
pub proof fn lemma_statement_lines(st: ParseState, t: Seq<Seq<char>>, lineno: nat, line: Seq<char>, fb: Seq<Seq<char>>)
    requires
        st.cur is Some,
        t.len() > 0,
        not_acquire_form(t),
        stmt_step(st, t, lineno, line, fb) is Next,
    ensures
        ({
            let b = st.cur->0;
            let s2 = stmt_step(st, t, lineno, line, fb)->Next_0;
            let c2 = s2.cur->0;
            &&& s2.cur is Some
            &&& c2.0 == b.0
            &&& (t[0] == "drop"@ || t[0] == "storage_dead"@) ==> c2.1 == b.1.push(
                Stmt::Kill { local: Local(intern_id(st.locals, t[1])) },
            ) && c2.2 == b.2
            &&& t[0] == "goto"@ ==> c2.1 == b.1 && c2.2 == Some(
                TermModel::Branch {
                    succs: seq![Successor { target: BasicBlock(intern_id(st.labels, t[1])), activate: None }],
                },
            )
            &&& t[0] == "ret"@ ==> c2.1 == b.1 && c2.2 == Some(TermModel::Return)
            &&& t[0] == "suspend"@ ==> c2.1 == b.1 && exists|a: int| #[trigger] first_arrow(t, a) && c2.2 == Some(
                TermModel::Suspend { target: intern_id(st.labels, t[a + 1]) },
            )
            &&& t[0] == "call"@ ==> c2.1 == b.1 && exists|a: int| #[trigger] first_arrow(t, a) && c2.2 == Some(
                TermModel::Call {
                    def_path: join_words(t.subrange(1, a)),
                    is_foreign: true,
                    is_forbidden: fb.contains(join_words(t.subrange(1, a))),
                    target: intern_id(st.labels, t[a + 1]),
                },
            )
            &&& t[0] == "drop_call"@ ==> c2.1 == b.1 && exists|a: int| #[trigger] first_arrow(t, a) && c2.2 == Some(
                TermModel::Drop { local: intern_id(st.locals, t[1]), target: intern_id(st.labels, t[a + 1]) },
            )
            &&& t[0] == "forget_call"@ ==> c2.1 == b.1 && exists|a: int| #[trigger] first_arrow(t, a) && c2.2 == Some(
                TermModel::Call {
                    def_path: "core::mem::forget"@,
                    is_foreign: false,
                    is_forbidden: false,
                    target: intern_id(st.labels, t[a + 1]),
                },
            )
        }),
{
    lemma_arrow_pos(t);
    reveal_strlit("drop");
    reveal_strlit("storage_dead");
    reveal_strlit("goto");
    reveal_strlit("ret");
    reveal_strlit("suspend");
    reveal_strlit("call");
    reveal_strlit("drop_call");
    reveal_strlit("forget_call");
    reveal_strlit("try");
    if arrow_pos(t) is Some {
        let a = arrow_pos(t)->0;
        assert(first_arrow(t, a));
    }
    assert("drop"@ != "storage_dead"@) by { assert("drop"@.len() != "storage_dead"@.len()); }
    assert("drop"@ != "goto"@) by { assert("drop"@[0] != "goto"@[0]); }
    assert("drop"@ != "ret"@) by { assert("drop"@.len() != "ret"@.len()); }
    assert("drop"@ != "suspend"@) by { assert("drop"@.len() != "suspend"@.len()); }
    assert("drop"@ != "call"@) by { assert("drop"@[0] != "call"@[0]); }
    assert("drop"@ != "drop_call"@) by { assert("drop"@.len() != "drop_call"@.len()); }
    assert("drop"@ != "forget_call"@) by { assert("drop"@.len() != "forget_call"@.len()); }
    assert("drop"@ != "try"@) by { assert("drop"@.len() != "try"@.len()); }
    assert("storage_dead"@ != "goto"@) by { assert("storage_dead"@.len() != "goto"@.len()); }
    assert("storage_dead"@ != "ret"@) by { assert("storage_dead"@.len() != "ret"@.len()); }
    assert("storage_dead"@ != "suspend"@) by { assert("storage_dead"@.len() != "suspend"@.len()); }
    assert("storage_dead"@ != "call"@) by { assert("storage_dead"@.len() != "call"@.len()); }
    assert("storage_dead"@ != "drop_call"@) by { assert("storage_dead"@.len() != "drop_call"@.len()); }
    assert("storage_dead"@ != "forget_call"@) by { assert("storage_dead"@.len() != "forget_call"@.len()); }
    assert("storage_dead"@ != "try"@) by { assert("storage_dead"@.len() != "try"@.len()); }
    assert("goto"@ != "ret"@) by { assert("goto"@.len() != "ret"@.len()); }
    assert("goto"@ != "suspend"@) by { assert("goto"@.len() != "suspend"@.len()); }
    assert("goto"@ != "call"@) by { assert("goto"@[0] != "call"@[0]); }
    assert("goto"@ != "drop_call"@) by { assert("goto"@.len() != "drop_call"@.len()); }
    assert("goto"@ != "forget_call"@) by { assert("goto"@.len() != "forget_call"@.len()); }
    assert("goto"@ != "try"@) by { assert("goto"@.len() != "try"@.len()); }
    assert("ret"@ != "suspend"@) by { assert("ret"@.len() != "suspend"@.len()); }
    assert("ret"@ != "call"@) by { assert("ret"@.len() != "call"@.len()); }
    assert("ret"@ != "drop_call"@) by { assert("ret"@.len() != "drop_call"@.len()); }
    assert("ret"@ != "forget_call"@) by { assert("ret"@.len() != "forget_call"@.len()); }
    assert("ret"@ != "try"@) by { assert("ret"@[0] != "try"@[0]); }
    assert("suspend"@ != "call"@) by { assert("suspend"@.len() != "call"@.len()); }
    assert("suspend"@ != "drop_call"@) by { assert("suspend"@.len() != "drop_call"@.len()); }
    assert("suspend"@ != "forget_call"@) by { assert("suspend"@.len() != "forget_call"@.len()); }
    assert("suspend"@ != "try"@) by { assert("suspend"@.len() != "try"@.len()); }
    assert("call"@ != "drop_call"@) by { assert("call"@.len() != "drop_call"@.len()); }
    assert("call"@ != "forget_call"@) by { assert("call"@.len() != "forget_call"@.len()); }
    assert("call"@ != "try"@) by { assert("call"@.len() != "try"@.len()); }
    assert("drop_call"@ != "forget_call"@) by { assert("drop_call"@.len() != "forget_call"@.len()); }
    assert("drop_call"@ != "try"@) by { assert("drop_call"@.len() != "try"@.len()); }
    assert("forget_call"@ != "try"@) by { assert("forget_call"@.len() != "try"@.len()); }
}

/// The blocks of the function being read once the block being read, if any,
/// is filed under its number with its statements and its terminator (a return
/// when it has none).
pub open spec fn blocks_with_current(st: ParseState) -> Map<u32, BlockModel> {
    match st.cur {
        Some(c) => st.blocks.insert(
            c.0,
            BlockModel { id: c.0, stmts: c.1, term: if c.2 is Some { c.2->0 } else { TermModel::Return } },
        ),
        None => st.blocks,
    }
}

/// What the lines that structure a module do: a line that is blank once its
/// comment is removed changes nothing; `fn NAME` files the function being
/// read, if any (its blocks with the current one, its order, and its first
/// labelled block as entry, 0 when it has none) and starts reading `NAME`
/// with nothing read yet; a line ending in `:` inside a function files the
/// current block and starts a block numbered by its label (the line without
/// its trailing colons), appended to the order and the entry if it is the
/// first.
pub proof fn lemma_structure_lines(st: ParseState, lineno: nat, raw: Seq<char>, fb: Seq<Seq<char>>)
    ensures
        clean_line(raw).len() == 0 ==> line_step(st, lineno, raw, fb) == Step::Next(st),
        ({
            let line = clean_line(raw);
            let t = words_of(line);
            line.len() > 0 && t.len() >= 2 && t[0] == "fn"@ ==> line_step(st, lineno, raw, fb) == Step::Next(
                ParseState {
                    funcs: if st.name is Some {
                        st.funcs.push(
                            FunctionModel {
                                name: st.name->0,
                                entry: if st.entry is Some { st.entry->0 } else { 0 },
                                blocks: blocks_with_current(st),
                                order: st.order,
                            },
                        )
                    } else {
                        st.funcs
                    },
                    name: Some(t[1]),
                    locals: if st.name is Some { Seq::empty() } else { st.locals },
                    labels: if st.name is Some { Seq::empty() } else { st.labels },
                    blocks: if st.name is Some { Map::empty() } else { st.blocks },
                    order: if st.name is Some { Seq::empty() } else { st.order },
                    entry: if st.name is Some { None } else { st.entry },
                    cur: if st.name is Some { None } else { st.cur },
                },
            )
        }),
        ({
            let line = clean_line(raw);
            let t = words_of(line);
            let label = strip_colons(line);
            &&& line.len() > 0 && t.len() > 0 && t[0] != "fn"@ && st.name is Some && line.last() == ':' && intern_fits(
                st.labels,
                label,
            ) ==> line_step(st, lineno, raw, fb) == Step::Next(
                ParseState {
                    labels: intern_names(st.labels, label),
                    entry: if st.entry is None { Some(intern_id(st.labels, label)) } else { st.entry },
                    order: st.order.push(intern_id(st.labels, label)),
                    cur: Some((intern_id(st.labels, label), Seq::empty(), None)),
                    blocks: blocks_with_current(st),
                    ..st
                },
            )
        }),
{
}

/// Every non-empty cleaned line of the first `n` lines is a symbol, every
/// symbol is such a line, and none occurs twice.
proof fn lemma_symbols_upto(lines: Seq<Seq<char>>, n: int)
    requires
        0 <= n <= lines.len(),
    ensures
        forall|i: int| 0 <= i < n && clean_line(#[trigger] lines[i]).len() > 0 ==> symbols_upto(lines, n).contains(
            clean_line(lines[i]),
        ),
        forall|x: Seq<char>| #[trigger] symbols_upto(lines, n).contains(x) ==> x.len() > 0 && exists|i: int|
            0 <= i < n && clean_line(#[trigger] lines[i]) == x,
        symbols_upto(lines, n).no_duplicates(),
    decreases n,
{
    if n > 0 {
        lemma_symbols_upto(lines, n - 1);
        let r1 = symbols_upto(lines, n - 1);
        let r = symbols_upto(lines, n);
        let l = clean_line(lines[n - 1]);
        if l.len() > 0 && !r1.contains(l) {
            assert(r == r1.push(l));
            assert(r[r.len() - 1] == l);
            assert forall|x: Seq<char>| r1.contains(x) implies r.contains(x) by {
                let i = choose|i: int| 0 <= i < r1.len() && r1[i] == x;
                assert(r[i] == x);
            }
            assert forall|x: Seq<char>| #[trigger] r.contains(x) implies x.len() > 0 && exists|i: int|
                0 <= i < n && clean_line(#[trigger] lines[i]) == x by {
                let i = choose|i: int| 0 <= i < r.len() && r[i] == x;
                if i < r1.len() {
                    assert(r1[i] == x);
                    assert(r1.contains(x));
                } else {
                    assert(clean_line(lines[n - 1]) == x);
                }
            }
            assert forall|a: int, b: int| 0 <= a < r.len() && 0 <= b < r.len() && a != b implies r[a] != r[b] by {
                if a < r1.len() && b < r1.len() {
                    assert(r[a] == r1[a] && r[b] == r1[b]);
                } else if a < r1.len() {
                    assert(r1.contains(r[a]));
                } else {
                    assert(r1.contains(r[b]));
                }
            }
        }
    }
}

/// A symbol list holds every line of the text that is not blank once its
/// comment is removed and its blanks trimmed, holds nothing else, and holds
/// each such line once.
pub proof fn lemma_symbol_list_entries(text: Seq<char>)
    ensures
        forall|i: int| 0 <= i < lines_of(text).len() && clean_line(#[trigger] lines_of(text)[i]).len() > 0
            ==> symbol_list_spec(text).contains(clean_line(lines_of(text)[i])),
        forall|x: Seq<char>| #[trigger] symbol_list_spec(text).contains(x) ==> x.len() > 0 && exists|i: int|
            0 <= i < lines_of(text).len() && clean_line(#[trigger] lines_of(text)[i]) == x,
        symbol_list_spec(text).no_duplicates(),
{
    lemma_symbols_upto(lines_of(text), lines_of(text).len() as int);
}

/// Interning is idempotent, numbers names by first-seen position, and gives
/// different names different numbers.
pub proof fn lemma_intern_laws(names: Seq<Seq<char>>, x: Seq<char>, y: Seq<char>)
    requires
        names.no_duplicates(),
        names.len() <= u32::MAX,
        intern_fits(names, x),
    ensures
        intern_names(names, x).no_duplicates(),
        intern_names(intern_names(names, x), x) == intern_names(names, x),
        intern_id(intern_names(names, x), x) == intern_id(names, x),
        intern_id(names, x) < intern_names(names, x).len(),
        intern_names(names, x)[intern_id(names, x) as int] == x,
        intern_names(names, x).contains(y) && y != x ==> intern_id(intern_names(names, x), y) != intern_id(
            names,
            x,
        ),
{
    let n2 = intern_names(names, x);
    if names.contains(x) {
        let i = name_index(names, x);
        assert(0 <= i < names.len() && names[i] == x);
        assert(intern_id(names, x) as int == i);
    } else {
        assert(n2[names.len() as int] == x);
        assert(n2.contains(x));
        assert forall|a: int, b: int| 0 <= a < n2.len() && 0 <= b < n2.len() && a != b implies n2[a] != n2[b] by {
            if a < names.len() && b < names.len() {
            } else if a == names.len() {
                assert(names[b] == n2[b]);
            } else {
                assert(names[a] == n2[a]);
            }
        }
        let i = name_index(n2, x);
        assert(0 <= i < n2.len() && n2[i] == x);
        assert(i == names.len());
        assert(intern_id(names, x) as int == names.len());
    }
    if n2.contains(y) && y != x {
        let j = name_index(n2, y);
        assert(0 <= j < n2.len() && n2[j] == y);
        assert(n2.len() <= u32::MAX + 1);
        if j < n2.len() - 1 || names.contains(x) {
            assert(j < u32::MAX);
        }
        assert(intern_id(n2, y) as int == j);
        assert(j != intern_id(names, x) as int);
    }
}

proof fn lemma_before_hash_comment(l: Seq<char>, x: Seq<char>)
    ensures
        before_hash(l + seq!['#'] + x) == before_hash(l),
    decreases l.len(),
{
    if l.len() == 0 {
        assert((l + seq!['#'] + x)[0] == '#');
    } else {
        assert((l + seq!['#'] + x).drop_first() =~= l.drop_first() + seq!['#'] + x);
        assert((l + seq!['#'] + x)[0] == l[0]);
        lemma_before_hash_comment(l.drop_first(), x);
    }
}

/// Appending `#` and any text to a line leaves its meaning unchanged.
pub proof fn lemma_comment_ignored(l: Seq<char>, x: Seq<char>)
    ensures
        clean_line(l + seq!['#'] + x) == clean_line(l),
{
    lemma_before_hash_comment(l, x);
}

/// Lines with the same text once comments and surrounding blanks are removed
/// parse alike, errors included.
pub proof fn lemma_same_clean_lines(a: Seq<Seq<char>>, b: Seq<Seq<char>>, forbidden: Seq<Seq<char>>)
    requires
        a.len() == b.len(),
        forall|i: int| 0 <= i < a.len() ==> clean_line(#[trigger] a[i]) == clean_line(b[i]),
    ensures
        parse_lines(a, forbidden) == parse_lines(b, forbidden),
{
    lemma_run_same_clean(a, b, forbidden, a.len() as int);
}

proof fn lemma_run_same_clean(a: Seq<Seq<char>>, b: Seq<Seq<char>>, forbidden: Seq<Seq<char>>, k: int)
    requires
        a.len() == b.len(),
        0 <= k <= a.len(),
        forall|i: int| 0 <= i < a.len() ==> clean_line(#[trigger] a[i]) == clean_line(b[i]),
    ensures
        run_lines(a, forbidden, k) == run_lines(b, forbidden, k),
    decreases k,
{
    if k > 0 {
        lemma_run_same_clean(a, b, forbidden, k - 1);
        assert(clean_line(a[k - 1]) == clean_line(b[k - 1]));
    }
}

/// A line read without error reads the same whatever its number.
proof fn lemma_line_step_number(st: ParseState, n: nat, m: nat, raw: Seq<char>, fb: Seq<Seq<char>>)
    ensures
        line_step(st, n, raw, fb) matches Step::Next(s2) ==> line_step(st, m, raw, fb) == Step::Next(s2),
{
}

proof fn lemma_run_blank_inserted(lines: Seq<Seq<char>>, p: int, blank: Seq<char>, fb: Seq<Seq<char>>, k: int)
    requires
        0 <= p <= k <= lines.len(),
        clean_line(blank).len() == 0,
        run_lines(lines, fb, k) is Next,
    ensures
        run_lines(lines.insert(p, blank), fb, k + 1) == run_lines(lines, fb, k),
    decreases k,
{
    let l3 = lines.insert(p, blank);
    if k == p {
        lemma_run_prefix(lines, l3, fb, p);
    } else {
        if !(run_lines(lines, fb, k - 1) is Next) {
            lemma_run_stops(lines, fb, k - 1, k);
        }
        lemma_run_blank_inserted(lines, p, blank, fb, k - 1);
        assert(l3[k] == lines[k - 1]);
        if let Step::Next(st) = run_lines(lines, fb, k - 1) {
            lemma_line_step_number(st, (k - 1) as nat, k as nat, lines[k - 1], fb);
        }
    }
}

proof fn lemma_run_prefix(a: Seq<Seq<char>>, b: Seq<Seq<char>>, fb: Seq<Seq<char>>, k: int)
    requires
        0 <= k <= a.len(),
        k <= b.len(),
        forall|i: int| 0 <= i < k ==> a[i] == b[i],
    ensures
        run_lines(a, fb, k) == run_lines(b, fb, k),
    decreases k,
{
    if k > 0 {
        lemma_run_prefix(a, b, fb, k - 1);
    }
}

/// Inserting a blank or comment-only line anywhere leaves a parsed module unchanged.
pub proof fn lemma_blank_line_ignored(lines: Seq<Seq<char>>, p: int, blank: Seq<char>, forbidden: Seq<Seq<char>>)
    requires
        0 <= p <= lines.len(),
        clean_line(blank).len() == 0,
        parse_lines(lines, forbidden) is Parsed,
    ensures
        parse_lines(lines.insert(p, blank), forbidden) == parse_lines(lines, forbidden),
{
    lemma_run_blank_inserted(lines, p, blank, forbidden, lines.len() as int);
}

/// Appending `#` and any text without a newline to one line of a text does
/// not change how the text parses, errors included.
pub proof fn lemma_text_comment_ignored(src: Seq<char>, i: int, x: Seq<char>, forbidden: Seq<Seq<char>>)
    requires
        0 <= i < lines_of(src).len(),
        newline_free(x),
    ensures
        parse_spec(join_lines(lines_of(src).update(i, lines_of(src)[i] + seq!['#'] + x)), forbidden) == parse_spec(
            src,
            forbidden,
        ),
{
    let ls = lines_of(src);
    let l2 = ls[i] + seq!['#'] + x;
    let ls2 = ls.update(i, l2);
    lemma_join_lines_of(src);
    assert(newline_free(l2)) by {
        assert forall|k: int| 0 <= k < l2.len() implies l2[k] != '\n' by {
            if k < ls[i].len() {
                assert(l2[k] == ls[i][k]);
            } else if k > ls[i].len() {
                assert(l2[k] == x[k - ls[i].len() - 1]);
            }
        }
    }
    assert forall|k: int| 0 <= k < ls2.len() implies newline_free(#[trigger] ls2[k]) by {
        if k != i {
            assert(ls2[k] == ls[k]);
        }
    }
    lemma_lines_of_join(ls2);
    lemma_comment_ignored(ls[i], x);
    assert forall|k: int| 0 <= k < ls2.len() implies clean_line(#[trigger] ls2[k]) == clean_line(ls[k]) by {}
    lemma_same_clean_lines(ls2, ls, forbidden);
}

/// Inserting a line without a newline whose text is blank or only a comment
/// anywhere in a text that parses leaves its functions unchanged.
pub proof fn lemma_text_blank_line_ignored(src: Seq<char>, p: int, blank: Seq<char>, forbidden: Seq<Seq<char>>)
    requires
        0 <= p <= lines_of(src).len(),
        newline_free(blank),
        clean_line(blank).len() == 0,
        parse_spec(src, forbidden) is Parsed,
    ensures
        parse_spec(join_lines(lines_of(src).insert(p, blank)), forbidden) == parse_spec(src, forbidden),
{
    let ls = lines_of(src);
    let ls3 = ls.insert(p, blank);
    lemma_join_lines_of(src);
    assert forall|k: int| 0 <= k < ls3.len() implies newline_free(#[trigger] ls3[k]) by {
        if k < p {
            assert(ls3[k] == ls[k]);
        } else if k > p {
            assert(ls3[k] == ls[k - 1]);
        }
    }
    lemma_lines_of_join(ls3);
    lemma_blank_line_ignored(ls, p, blank, forbidden);
}

/// A call terminator with its forbidden mark cleared.
pub open spec fn erase_term(t: TermModel) -> TermModel {
    match t {
        TermModel::Call { def_path, is_foreign, target, .. } => TermModel::Call {
            def_path,
            is_foreign,
            is_forbidden: false,
            target,
        },
        _ => t,
    }
}

pub open spec fn erase_blocks(m: Map<u32, BlockModel>) -> Map<u32, BlockModel> {
    Map::new(|k: u32| m.contains_key(k), |k: u32| BlockModel { term: erase_term(m[k].term), ..m[k] })
}

/// A function with every forbidden mark cleared.
pub open spec fn erase_function(g: FunctionModel) -> FunctionModel {
    FunctionModel { blocks: erase_blocks(g.blocks), ..g }
}

pub open spec fn erase_functions(fs: Seq<FunctionModel>) -> Seq<FunctionModel> {
    fs.map_values(|g: FunctionModel| erase_function(g))
}

pub open spec fn erase_state(st: ParseState) -> ParseState {
    ParseState {
        funcs: erase_functions(st.funcs),
        blocks: erase_blocks(st.blocks),
        cur: match st.cur {
            Some(c) => Some((c.0, c.1, match c.2 {
                Some(t) => Some(erase_term(t)),
                None => None,
            })),
            None => None,
        },
        ..st
    }
}

/// Two outcomes agree once forbidden marks are cleared.
pub open spec fn steps_alike(x: Step, y: Step) -> bool {
    match (x, y) {
        (Step::Next(a), Step::Next(b)) => erase_state(a) == erase_state(b),
        (Step::Fail(m1), Step::Fail(m2)) => m1 == m2,
        (Step::Abort, Step::Abort) => true,
        _ => false,
    }
}

proof fn lemma_erase_flush_block(st: ParseState)
    ensures
        erase_state(flush_block_spec(st)) == flush_block_spec(erase_state(st)),
{
    if let Some(c) = st.cur {
        let b = BlockModel { id: c.0, stmts: c.1, term: match c.2 { Some(t) => t, None => TermModel::Return } };
        assert(erase_blocks(st.blocks.insert(c.0, b)) =~= erase_blocks(st.blocks).insert(
            c.0,
            BlockModel { term: erase_term(b.term), ..b },
        ));
    }
}

proof fn lemma_erase_flush_fn(st: ParseState)
    ensures
        erase_state(flush_fn_spec(st)) == flush_fn_spec(erase_state(st)),
{
    lemma_erase_flush_block(st);
    if let Some(n) = st.name {
        let s1 = flush_block_spec(st);
        let g = FunctionModel {
            name: n,
            entry: match s1.entry { Some(e) => e, None => 0 },
            blocks: s1.blocks,
            order: s1.order,
        };
        assert(erase_functions(s1.funcs.push(g)) =~= erase_functions(s1.funcs).push(erase_function(g)));
        assert(erase_blocks(Map::<u32, BlockModel>::empty()) =~= Map::<u32, BlockModel>::empty());
        assert(erase_functions(Seq::<FunctionModel>::empty()) =~= Seq::<FunctionModel>::empty());
    }
}

proof fn lemma_stmt_step_alike(
    s1: ParseState,
    s2: ParseState,
    t: Seq<Seq<char>>,
    lineno: nat,
    line: Seq<char>,
    fb1: Seq<Seq<char>>,
    fb2: Seq<Seq<char>>,
)
    requires
        erase_state(s1) == erase_state(s2),
        s1.cur is Some,
        t.len() > 0,
    ensures
        steps_alike(stmt_step(s1, t, lineno, line, fb1), stmt_step(s2, t, lineno, line, fb2)),
{
    assert(s1.locals == s2.locals);
    assert(s1.labels == s2.labels);
    assert(s2.cur is Some);
}

proof fn lemma_line_step_alike(s1: ParseState, s2: ParseState, n: nat, raw: Seq<char>, fb1: Seq<Seq<char>>, fb2: Seq<Seq<char>>)
    requires
        erase_state(s1) == erase_state(s2),
    ensures
        steps_alike(line_step(s1, n, raw, fb1), line_step(s2, n, raw, fb2)),
{
    let line = clean_line(raw);
    let t = words_of(line);
    assert(s1.name == s2.name);
    assert(s1.cur is Some <==> s2.cur is Some);
    lemma_erase_flush_fn(s1);
    lemma_erase_flush_fn(s2);
    lemma_erase_flush_block(s1);
    lemma_erase_flush_block(s2);
    if line.len() > 0 && t.len() > 0 && t[0] != "fn"@ && s1.name is Some && line.last() != ':' && s1.cur is Some {
        lemma_stmt_step_alike(s1, s2, t, n, line, fb1, fb2);
    }
}

proof fn lemma_run_alike(lines: Seq<Seq<char>>, fb1: Seq<Seq<char>>, fb2: Seq<Seq<char>>, k: int)
    requires
        0 <= k <= lines.len(),
    ensures
        steps_alike(run_lines(lines, fb1, k), run_lines(lines, fb2, k)),
    decreases k,
{
    if k > 0 {
        lemma_run_alike(lines, fb1, fb2, k - 1);
        if let (Step::Next(a), Step::Next(b)) = (run_lines(lines, fb1, k - 1), run_lines(lines, fb2, k - 1)) {
            lemma_line_step_alike(a, b, (k - 1) as nat, lines[k - 1], fb1, fb2);
        }
    }
}

/// The forbidden list changes nothing but the forbidden marks of call
/// terminators: with any two lists, a text is rejected with the same message,
/// or cannot be read with both, or yields the same functions once the marks
/// are cleared.
pub proof fn lemma_forbidden_marks_only(lines: Seq<Seq<char>>, fb1: Seq<Seq<char>>, fb2: Seq<Seq<char>>)
    ensures
        match (parse_lines(lines, fb1), parse_lines(lines, fb2)) {
            (ParseOutcome::Parsed(a), ParseOutcome::Parsed(b)) => erase_functions(a) == erase_functions(b),
            (ParseOutcome::Rejected(m1), ParseOutcome::Rejected(m2)) => m1 == m2,
            (ParseOutcome::Aborted, ParseOutcome::Aborted) => true,
            _ => false,
        },
{
    lemma_run_alike(lines, fb1, fb2, lines.len() as int);
    if let (Step::Next(a), Step::Next(b)) = (
        run_lines(lines, fb1, lines.len() as int),
        run_lines(lines, fb2, lines.len() as int),
    ) {
        lemma_erase_flush_fn(a);
        lemma_erase_flush_fn(b);
    }
}

} // verus!
