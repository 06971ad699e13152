use vstd::prelude::*;
use vstd::slice::{slice_subrange, slice_to_vec};

use crate::ins::Ins;
use crate::text::{
    chars_of, find_char, find_space, holds_char, holds_space, i64_literal, parse_i64, parse_usize,
    same_chars, scan_char, scan_space, trim, trim_span, usize_literal,
};
use crate::word::Word;

verus! {

/// Why a line failed to assemble.
#[derive(Clone, Copy, Debug, PartialEq, Eq, Structural)]
pub enum AsmFault {
    /// Unknown mnemonic, wrong number of operands, or a bad operand literal.
    Malformed,
    /// A jump target that is neither an index nor a defined label.
    UnresolvedLabel,
}

/// An assembly error, carrying the text of the offending line.
#[derive(Debug, PartialEq, Eq)]
pub enum AsmError {
    MalformedInstruction(String),
    UnresolvedLabel(String),
}

impl AsmError {
    pub open spec fn fault(self) -> AsmFault {
        match self {
            AsmError::MalformedInstruction(_) => AsmFault::Malformed,
            AsmError::UnresolvedLabel(_) => AsmFault::UnresolvedLabel,
        }
    }

    pub open spec fn text(self) -> Seq<char> {
        match self {
            AsmError::MalformedInstruction(t) => t@,
            AsmError::UnresolvedLabel(t) => t@,
        }
    }
}

/// A line without its comment: everything before the first `#`.
pub open spec fn code(line: Seq<char>) -> Seq<char> {
    line.take(find_char(line, 0, '#'))
}

/// What a line says: its code with surrounding whitespace removed. A line
/// whose content is empty is skipped.
pub open spec fn content(line: Seq<char>) -> Seq<char> {
    trim(code(line))
}

/// Content ending in `:` defines a label.
pub open spec fn is_label(c: Seq<char>) -> bool {
    c.len() > 0 && c.last() == ':'
}

/// The first token of an instruction's content.
pub open spec fn mnemonic(c: Seq<char>) -> Seq<char> {
    c.take(find_space(c, 0))
}

/// What follows the mnemonic, without surrounding whitespace; a valid
/// operand is a single token.
pub open spec fn operand(c: Seq<char>) -> Seq<char> {
    trim(c.skip(find_space(c, 0)))
}

/// The instruction named by a mnemonic that takes no operand.
pub open spec fn nullary(m: Seq<char>) -> Option<Ins> {
    if m == seq!['p', 'o', 'p'] {
        Some(Ins::Pop)
    } else if m == seq!['a', 'd', 'd', 'i'] {
        Some(Ins::AddI)
    } else if m == seq!['s', 'u', 'b', 'i'] {
        Some(Ins::SubI)
    } else if m == seq!['m', 'u', 'l', 'i'] {
        Some(Ins::MulI)
    } else if m == seq!['d', 'i', 'v', 'i'] {
        Some(Ins::DivI)
    } else if m == seq!['a', 'd', 'd', 'f'] {
        Some(Ins::AddF)
    } else if m == seq!['s', 'u', 'b', 'f'] {
        Some(Ins::SubF)
    } else if m == seq!['m', 'u', 'l', 'f'] {
        Some(Ins::MulF)
    } else if m == seq!['d', 'i', 'v', 'f'] {
        Some(Ins::DivF)
    } else if m == seq!['g', 'e', 'f'] {
        Some(Ins::Gef)
    } else if m == seq!['n', 'o', 't'] {
        Some(Ins::Not)
    } else if m == seq!['h', 'a', 'l', 't'] {
        Some(Ins::Halt)
    } else if m == seq!['n', 'o', 'o', 'p'] {
        Some(Ins::NoOp)
    } else {
        None
    }
}

/// A jump target: a literal index, or else the index of a label.
pub open spec fn jump_target(o: Seq<char>, labels: Map<Seq<char>, usize>) -> Option<usize> {
    match usize_literal(o) {
        Some(t) => Some(t),
        None => if labels.contains_key(o) {
            Some(labels[o])
        } else {
            None
        },
    }
}

/// The float literal of a `push` whose operand holds a `.`: the one token
/// that is handed to the float parser.
pub open spec fn float_operand(c: Seq<char>) -> Option<Seq<char>> {
    let o = operand(c);
    if mnemonic(c) == seq!['p', 'u', 's', 'h'] && o.len() > 0 && !holds_space(o) && holds_char(
        o,
        '.',
    ) {
        Some(o)
    } else {
        None
    }
}

/// The instruction that content `c` denotes, given the label table and, for
/// a float literal, the bits the float parser gave (`None`: not a float).
#[verifier::opaque]
pub open spec fn decode(c: Seq<char>, labels: Map<Seq<char>, usize>, float_bits: Option<u64>) -> Result<
    Ins,
    AsmFault,
> {
    let m = mnemonic(c);
    let o = operand(c);
    if o.len() == 0 {
        match nullary(m) {
            Some(i) => Ok(i),
            None => Err(AsmFault::Malformed),
        }
    } else if holds_space(o) {
        Err(AsmFault::Malformed)
    } else if m == seq!['p', 'u', 's', 'h'] {
        if holds_char(o, '.') {
            match float_bits {
                Some(b) => Ok(Ins::Push(Word::Float(b))),
                None => Err(AsmFault::Malformed),
            }
        } else {
            match i64_literal(o) {
                Some(v) => Ok(Ins::Push(Word::Int(v))),
                None => Err(AsmFault::Malformed),
            }
        }
    } else if m == seq!['d', 'u', 'p'] {
        match usize_literal(o) {
            Some(k) => Ok(Ins::Dup(k)),
            None => Err(AsmFault::Malformed),
        }
    } else if m == seq!['s', 'w', 'a', 'p'] {
        match usize_literal(o) {
            Some(k) => Ok(Ins::Swap(k)),
            None => Err(AsmFault::Malformed),
        }
    } else if m == seq!['j', 'u', 'm', 'p'] {
        match jump_target(o, labels) {
            Some(t) => Ok(Ins::Jump(t)),
            None => Err(AsmFault::UnresolvedLabel),
        }
    } else if m == seq!['j', 'u', 'm', 'p', 'i', 'f'] {
        match jump_target(o, labels) {
            Some(t) => Ok(Ins::JumpIf(t)),
            None => Err(AsmFault::UnresolvedLabel),
        }
    } else {
        Err(AsmFault::Malformed)
    }
}

/// The lines of `s[start..]`, where the current line began at `start` and
/// the scan has reached `i`. Lines are separated by `\n`.
pub open spec fn lines_scan(s: Seq<char>, start: int, i: int) -> Seq<Seq<char>>
    decreases s.len() - i,
{
    if i >= s.len() {
        seq![s.subrange(start, s.len() as int)]
    } else if s[i] == '\n' {
        seq![s.subrange(start, i)] + lines_scan(s, i + 1, i + 1)
    } else {
        lines_scan(s, start, i + 1)
    }
}

/// The lines of a source text: the text between consecutive `\n`s.
pub open spec fn split_lines(s: Seq<char>) -> Seq<Seq<char>> {
    lines_scan(s, 0, 0)
}

/// The first pass: the label table, and how many instructions the lines
/// hold. A label stands for the index of the instruction that follows it,
/// that is the number of instruction lines before it.
pub open spec fn label_pass(lines: Seq<Seq<char>>) -> (Map<Seq<char>, usize>, int)
    decreases lines.len(),
{
    if lines.len() == 0 {
        (Map::empty(), 0)
    } else {
        let (labels, n) = label_pass(lines.drop_last());
        let c = content(lines.last());
        if c.len() == 0 {
            (labels, n)
        } else if is_label(c) {
            (labels.insert(c.drop_last(), n as usize), n)
        } else {
            (labels, n + 1)
        }
    }
}

/// The label table of a source text.
pub open spec fn labels_of(src: Seq<char>) -> Map<Seq<char>, usize> {
    label_pass(split_lines(src)).0
}

/// What the second pass makes of a line with content `c`: nothing for an
/// empty or label line, else the decoded instruction or the failure.
pub open spec fn line_outcome(c: Seq<char>, labels: Map<Seq<char>, usize>, float_bits: Option<u64>) -> Result<
    Option<Ins>,
    AsmFault,
> {
    if c.len() == 0 || is_label(c) {
        Ok(None)
    } else {
        match decode(c, labels, float_bits) {
            Ok(i) => Ok(Some(i)),
            Err(f) => Err(f),
        }
    }
}

/// The second pass: the instructions of the lines, or the first failure
/// with the index of its line. `float_bits(k)` is the float parser's
/// answer for line `k`.
pub open spec fn assemble_lines(
    lines: Seq<Seq<char>>,
    labels: Map<Seq<char>, usize>,
    float_bits: spec_fn(int) -> Option<u64>,
) -> Result<Seq<Ins>, (AsmFault, int)>
    decreases lines.len(),
{
    if lines.len() == 0 {
        Ok(Seq::empty())
    } else {
        match assemble_lines(lines.drop_last(), labels, float_bits) {
            Err(e) => Err(e),
            Ok(p) => {
                let k = lines.len() - 1;
                match line_outcome(content(lines[k]), labels, float_bits(k)) {
                    Ok(None) => Ok(p),
                    Ok(Some(i)) => Ok(p.push(i)),
                    Err(f) => Err((f, k)),
                }
            },
        }
    }
}

/// The program a source text assembles to, given the float parser's
/// answers line by line.
pub open spec fn assembled(src: Seq<char>, float_bits: spec_fn(int) -> Option<u64>) -> Result<
    Seq<Ins>,
    (AsmFault, int),
> {
    assemble_lines(split_lines(src), labels_of(src), float_bits)
}

/// Whether `float_bits` holds, for each instruction line that the second
/// pass reaches, an answer that `parse` may give for that line's literal.
pub open spec fn floats_fit<P: Fn(&str) -> Option<u64>>(
    parse: P,
    lines: Seq<Seq<char>>,
    labels: Map<Seq<char>, usize>,
    float_bits: spec_fn(int) -> Option<u64>,
) -> bool {
    forall|k: int|
        #![trigger lines[k]]
        0 <= k < lines.len() && assemble_lines(lines.take(k), labels, float_bits) is Ok && !is_label(
            content(lines[k]),
        ) ==> float_fits(parse, content(lines[k]), float_bits(k))
}

proof fn lemma_lines_scan(s: Seq<char>, start: int, i: int)
    requires
        0 <= start <= i <= s.len(),
    ensures
        lines_scan(s, start, i) == (if find_char(s, i, '\n') >= s.len() {
            seq![s.subrange(start, s.len() as int)]
        } else {
            seq![s.subrange(start, find_char(s, i, '\n'))] + lines_scan(
                s,
                find_char(s, i, '\n') + 1,
                find_char(s, i, '\n') + 1,
            )
        }),
    decreases s.len() - i,
{
    if i < s.len() && s[i] != '\n' {
        lemma_lines_scan(s, start, i + 1);
    }
}

proof fn lemma_error_sticks(
    lines: Seq<Seq<char>>,
    labels: Map<Seq<char>, usize>,
    fv: spec_fn(int) -> Option<u64>,
    k: int,
    j: int,
)
    requires
        0 <= k < j <= lines.len(),
        assemble_lines(lines.take(k + 1), labels, fv) is Err,
    ensures
        assemble_lines(lines.take(j), labels, fv) == assemble_lines(lines.take(k + 1), labels, fv),
    decreases j,
{
    if j > k + 1 {
        lemma_error_sticks(lines, labels, fv, k, j - 1);
        assert(lines.take(j).drop_last() =~= lines.take(j - 1));
    }
}

proof fn lemma_assemble_frame(
    lines: Seq<Seq<char>>,
    labels: Map<Seq<char>, usize>,
    fv1: spec_fn(int) -> Option<u64>,
    fv2: spec_fn(int) -> Option<u64>,
)
    requires
        forall|i: int| 0 <= i < lines.len() ==> #[trigger] fv1(i) == fv2(i),
    ensures
        assemble_lines(lines, labels, fv1) == assemble_lines(lines, labels, fv2),
    decreases lines.len(),
{
    if lines.len() > 0 {
        lemma_assemble_frame(lines.drop_last(), labels, fv1, fv2);
    }
}

proof fn lemma_floats_fit_frame<P: Fn(&str) -> Option<u64>>(
    parse: P,
    done: Seq<Seq<char>>,
    labels: Map<Seq<char>, usize>,
    fv1: spec_fn(int) -> Option<u64>,
    fv2: spec_fn(int) -> Option<u64>,
)
    requires
        forall|i: int| 0 <= i < done.len() ==> #[trigger] fv1(i) == fv2(i),
        floats_fit(parse, done, labels, fv1),
    ensures
        floats_fit(parse, done, labels, fv2),
{
    assert forall|j: int|
        0 <= j < done.len() && assemble_lines(done.take(j), labels, fv2) is Ok && !is_label(
            content(done[j]),
        ) implies float_fits(parse, content(done[j]), fv2(j)) by {
        lemma_assemble_frame(done.take(j), labels, fv1, fv2);
    }
}

proof fn lemma_floats_fit_push<P: Fn(&str) -> Option<u64>>(
    parse: P,
    done: Seq<Seq<char>>,
    line: Seq<char>,
    labels: Map<Seq<char>, usize>,
    fv: spec_fn(int) -> Option<u64>,
)
    requires
        floats_fit(parse, done, labels, fv),
        assemble_lines(done, labels, fv) is Ok && !is_label(content(line)) ==> float_fits(
            parse,
            content(line),
            fv(done.len() as int),
        ),
    ensures
        floats_fit(parse, done.push(line), labels, fv),
{
    let nd = done.push(line);
    assert forall|j: int|
        0 <= j < nd.len() && assemble_lines(nd.take(j), labels, fv) is Ok && !is_label(
            content(nd[j]),
        ) implies float_fits(parse, content(nd[j]), fv(j)) by {
        if j < done.len() {
            assert(nd.take(j) =~= done.take(j));
        } else {
            assert(nd.take(j) =~= done);
        }
    }
}

proof fn lemma_error_outcome<P: Fn(&str) -> Option<u64>>(
    parse: P,
    lines: Seq<Seq<char>>,
    labels: Map<Seq<char>, usize>,
    fv: spec_fn(int) -> Option<u64>,
    k: int,
)
    requires
        0 <= k < lines.len(),
        floats_fit(parse, lines.take(k + 1), labels, fv),
        assemble_lines(lines.take(k + 1), labels, fv) is Err,
    ensures
        floats_fit(parse, lines, labels, fv),
        assemble_lines(lines, labels, fv) == assemble_lines(lines.take(k + 1), labels, fv),
{
    let pre = lines.take(k + 1);
    assert forall|j: int|
        0 <= j < lines.len() && assemble_lines(lines.take(j), labels, fv) is Ok && !is_label(
            content(lines[j]),
        ) implies float_fits(parse, content(lines[j]), fv(j)) by {
        if j > k {
            lemma_error_sticks(lines, labels, fv, k, j);
        } else {
            assert(lines.take(j) =~= pre.take(j));
            assert(lines[j] == pre[j]);
        }
    }
    lemma_error_sticks(lines, labels, fv, k, lines.len() as int);
    assert(lines.take(lines.len() as int) =~= lines);
}

/// Whether `bits` is an answer the float parser `parse` may give for the
/// literal `token`.
pub open spec fn parser_gives<P: Fn(&str) -> Option<u64>>(
    parse: P,
    token: Seq<char>,
    bits: Option<u64>,
) -> bool {
    exists|t: &str| t@ == token && call_ensures(parse, (t,), bits)
}

/// Whether `bits` may be the float parser's answer for content `c`. Holds
/// trivially for content without a float literal.
pub open spec fn float_fits<P: Fn(&str) -> Option<u64>>(
    parse: P,
    c: Seq<char>,
    bits: Option<u64>,
) -> bool {
    match float_operand(c) {
        Some(t) => parser_gives(parse, t, bits),
        None => true,
    }
}

/// A float parser that may be called on any text.
pub open spec fn parser_total<P: Fn(&str) -> Option<u64>>(parse: P) -> bool {
    forall|t: &str| call_requires(parse, (t,))
}

/// The target of the last entry named `name`, if any; entries are oldest first.
pub open spec fn lookup_entries(entries: Seq<(Seq<char>, usize)>, name: Seq<char>) -> Option<usize>
    decreases entries.len(),
{
    if entries.len() == 0 {
        None
    } else if entries.last().0 == name {
        Some(entries.last().1)
    } else {
        lookup_entries(entries.drop_last(), name)
    }
}

/// A map from label names to instruction indices. A later definition of a
/// name replaces an earlier one.
pub struct LabelTable {
    entries: Vec<(Vec<char>, usize)>,
}

impl LabelTable {
    spec fn entries_view(&self) -> Seq<(Seq<char>, usize)> {
        self.entries@.map_values(|e: (Vec<char>, usize)| (e.0@, e.1))
    }
}

impl View for LabelTable {
    type V = Map<Seq<char>, usize>;

    closed spec fn view(&self) -> Map<Seq<char>, usize> {
        Map::new(
            |k: Seq<char>| lookup_entries(self.entries_view(), k) is Some,
            |k: Seq<char>| lookup_entries(self.entries_view(), k)->Some_0,
        )
    }
}

impl LabelTable {
    pub fn new() -> (r: Self)
        ensures
            r@ == Map::<Seq<char>, usize>::empty(),
    {
        let r = LabelTable { entries: Vec::new() };
        assert(r@ =~= Map::<Seq<char>, usize>::empty());
        r
    }

    fn insert_chars(&mut self, name: Vec<char>, target: usize)
        ensures
            final(self)@ == old(self)@.insert(name@, target),
    {
        let ghost old_entries = self.entries_view();
        let ghost n = name@;
        self.entries.push((name, target));
        assert(self.entries_view() =~= old_entries.push((n, target)));
        assert(self.entries_view().drop_last() =~= old_entries);
        assert(self@ =~= old(self)@.insert(n, target));
    }

    /// Defines (or redefines) label `name` as instruction index `target`.
    pub fn insert(&mut self, name: &str, target: usize)
        ensures
            final(self)@ == old(self)@.insert(name@, target),
    {
        let chars = chars_of(name);
        self.insert_chars(chars, target);
    }

    fn get_chars(&self, name: &[char]) -> (r: Option<usize>)
        ensures
            r == (if self@.contains_key(name@) {
                Some(self@[name@])
            } else {
                None
            }),
    {
        let ghost es = self.entries_view();
        let mut j = self.entries.len();
        assert(es.take(j as int) =~= es);
        while j > 0
            invariant
                j <= self.entries@.len(),
                es == self.entries_view(),
                lookup_entries(es, name@) == lookup_entries(es.take(j as int), name@),
            decreases j,
        {
            let entry = &self.entries[j - 1];
            assert(es.take(j as int).drop_last() =~= es.take(j - 1));
            if same_chars(entry.0.as_slice(), name) {
                return Some(entry.1);
            }
            j = j - 1;
        }
        None
    }

    /// The index that label `name` stands for, if it is defined.
    pub fn get(&self, name: &str) -> (r: Option<usize>)
        ensures
            r == (if self@.contains_key(name@) {
                Some(self@[name@])
            } else {
                None
            }),
    {
        let chars = chars_of(name);
        self.get_chars(chars.as_slice())
    }
}

/// The instruction for a mnemonic that takes no operand.
fn nullary_ins(m: &[char]) -> (r: Option<Ins>)
    ensures
        r == nullary(m@),
{
    if same_chars(m, &['p', 'o', 'p']) {
        Some(Ins::Pop)
    } else if same_chars(m, &['a', 'd', 'd', 'i']) {
        Some(Ins::AddI)
    } else if same_chars(m, &['s', 'u', 'b', 'i']) {
        Some(Ins::SubI)
    } else if same_chars(m, &['m', 'u', 'l', 'i']) {
        Some(Ins::MulI)
    } else if same_chars(m, &['d', 'i', 'v', 'i']) {
        Some(Ins::DivI)
    } else if same_chars(m, &['a', 'd', 'd', 'f']) {
        Some(Ins::AddF)
    } else if same_chars(m, &['s', 'u', 'b', 'f']) {
        Some(Ins::SubF)
    } else if same_chars(m, &['m', 'u', 'l', 'f']) {
        Some(Ins::MulF)
    } else if same_chars(m, &['d', 'i', 'v', 'f']) {
        Some(Ins::DivF)
    } else if same_chars(m, &['g', 'e', 'f']) {
        Some(Ins::Gef)
    } else if same_chars(m, &['n', 'o', 't']) {
        Some(Ins::Not)
    } else if same_chars(m, &['h', 'a', 'l', 't']) {
        Some(Ins::Halt)
    } else if same_chars(m, &['n', 'o', 'o', 'p']) {
        Some(Ins::NoOp)
    } else {
        None
    }
}

/// Resolves a jump operand: a literal index, or else a label.
fn resolve_target(o: &[char], labels: &LabelTable) -> (r: Option<usize>)
    ensures
        r == jump_target(o@, labels@),
{
    match parse_usize(o) {
        Some(t) => Some(t),
        None => labels.get_chars(o),
    }
}

/// Decodes content `c`, which stands at char position `offset` of `text`.
/// A float literal is handed to `parse_float` as a `&str`.
fn decode_content<P: Fn(&str) -> Option<u64>>(
    c: &[char],
    text: &str,
    offset: usize,
    labels: &LabelTable,
    parse_float: &P,
) -> (r: Result<Ins, AsmFault>)
    requires
        offset + c@.len() <= text@.len(),
        offset + c@.len() <= usize::MAX,
        text@.subrange(offset as int, offset + c@.len()) == c@,
        parser_total(*parse_float),
    ensures
        exists|fb: Option<u64>|
            float_fits(*parse_float, c@, fb) && r == decode(c@, labels@, fb),
{
    reveal(decode);
    let m_end = scan_space(c, 0);
    let m = slice_subrange(c, 0, m_end);
    let rest = slice_subrange(c, m_end, c.len());
    let (oa, ob) = trim_span(rest);
    let o = slice_subrange(rest, oa, ob);
    assert(m@ =~= mnemonic(c@));
    assert(rest@ =~= c@.skip(m_end as int));
    assert(o@ == operand(c@));
    if o.len() == 0 {
        assert(float_fits(*parse_float, c@, None));
        return match nullary_ins(m) {
            Some(i) => Ok(i),
            None => Err(AsmFault::Malformed),
        };
    }
    if scan_space(o, 0) < o.len() {
        assert(float_fits(*parse_float, c@, None));
        return Err(AsmFault::Malformed);
    }
    if same_chars(m, &['p', 'u', 's', 'h']) {
        if scan_char(o, 0, '.') < o.len() {
            let start = offset + m_end + oa;
            let end = offset + m_end + ob;
            let token = text.substring_char(start, end);
            assert(token@ =~= o@);
            let bits = parse_float(token);
            assert(parser_gives(*parse_float, o@, bits));
            assert(float_fits(*parse_float, c@, bits));
            return match bits {
                Some(b) => Ok(Ins::Push(Word::Float(b))),
                None => Err(AsmFault::Malformed),
            };
        }
        assert(float_fits(*parse_float, c@, None));
        return match parse_i64(o) {
            Some(v) => Ok(Ins::Push(Word::Int(v))),
            None => Err(AsmFault::Malformed),
        };
    }
    assert(float_fits(*parse_float, c@, None));
    if same_chars(m, &['d', 'u', 'p']) {
        match parse_usize(o) {
            Some(k) => Ok(Ins::Dup(k)),
            None => Err(AsmFault::Malformed),
        }
    } else if same_chars(m, &['s', 'w', 'a', 'p']) {
        match parse_usize(o) {
            Some(k) => Ok(Ins::Swap(k)),
            None => Err(AsmFault::Malformed),
        }
    } else if same_chars(m, &['j', 'u', 'm', 'p']) {
        match resolve_target(o, labels) {
            Some(t) => Ok(Ins::Jump(t)),
            None => Err(AsmFault::UnresolvedLabel),
        }
    } else if same_chars(m, &['j', 'u', 'm', 'p', 'i', 'f']) {
        match resolve_target(o, labels) {
            Some(t) => Ok(Ins::JumpIf(t)),
            None => Err(AsmFault::UnresolvedLabel),
        }
    } else {
        Err(AsmFault::Malformed)
    }
}

/// The span of `line` that holds its content.
fn content_span(line: &[char]) -> (r: (usize, usize))
    ensures
        r.0 <= r.1 <= line@.len(),
        line@.subrange(r.0 as int, r.1 as int) == content(line@),
{
    let h = scan_char(line, 0, '#');
    let code_part = slice_subrange(line, 0, h);
    assert(code_part@ =~= code(line@));
    let (a, b) = trim_span(code_part);
    assert(line@.subrange(a as int, b as int) =~= code_part@.subrange(a as int, b as int));
    (a, b)
}

/// The error for a line of `text` spanning chars `from..to`.
fn line_error(fault: AsmFault, text: &str, from: usize, to: usize) -> (r: AsmError)
    requires
        from <= to <= text@.len(),
    ensures
        r.fault() == fault,
        r.text() == text@.subrange(from as int, to as int),
{
    let line = text.substring_char(from, to).to_owned();
    match fault {
        AsmFault::Malformed => AsmError::MalformedInstruction(line),
        AsmFault::UnresolvedLabel => AsmError::UnresolvedLabel(line),
    }
}

impl Ins {
    /// Decodes one source line against a label table. A `#` and what
    /// follows it are ignored, as is surrounding whitespace. A float
    /// literal is handed to `parse_float`, which returns its bits.
    pub fn to_ins<P: Fn(&str) -> Option<u64>>(line: &str, lt: &LabelTable, parse_float: &P) -> (r:
        Result<Ins, AsmError>)
        requires
            parser_total(*parse_float),
        ensures
            exists|fb: Option<u64>|
                float_fits(*parse_float, content(line@), fb) && match decode(
                    content(line@),
                    lt@,
                    fb,
                ) {
                    Ok(i) => r == Ok::<Ins, AsmError>(i),
                    Err(f) => r is Err && r->Err_0.fault() == f && r->Err_0.text() == line@,
                },
    {
        let chars = chars_of(line);
        let all = chars.as_slice();
        let (a, b) = content_span(all);
        let c = slice_subrange(all, a, b);
        match decode_content(c, line, a, lt, parse_float) {
            Ok(i) => Ok(i),
            Err(f) => {
                assert(line@.subrange(0, line@.len() as int) =~= line@);
                Err(line_error(f, line, 0, chars.len()))
            },
        }
    }
}

/// The second pass's work on one line, which stands at char position
/// `offset` of `text`.
fn assemble_line<P: Fn(&str) -> Option<u64>>(
    line: &[char],
    text: &str,
    offset: usize,
    labels: &LabelTable,
    parse_float: &P,
) -> (r: Result<Option<Ins>, AsmFault>)
    requires
        offset + line@.len() <= text@.len(),
        offset + line@.len() <= usize::MAX,
        text@.subrange(offset as int, offset + line@.len()) == line@,
        parser_total(*parse_float),
    ensures
        exists|fb: Option<u64>|
            (!is_label(content(line@)) ==> float_fits(*parse_float, content(line@), fb)) && r
                == line_outcome(content(line@), labels@, fb),
{
    let (a, b) = content_span(line);
    if b > a && line[b - 1] != ':' {
        let c = slice_subrange(line, a, b);
        assert(text@.subrange(offset + a, offset + a + c@.len()) =~= c@);
        match decode_content(c, text, offset + a, labels, parse_float) {
            Ok(i) => Ok(Some(i)),
            Err(f) => Err(f),
        }
    } else {
        assert(line_outcome(content(line@), labels@, None) == Ok::<Option<Ins>, AsmFault>(None));
        Ok(None)
    }
}

/// The first pass over the lines of `src`: collects the label table.
fn collect_labels(src: &[char]) -> (r: LabelTable)
    ensures
        r@ == label_pass(split_lines(src@)).0,
{
    let mut table = LabelTable::new();
    let mut count: usize = 0;
    let mut ls: usize = 0;
    let ghost lines = split_lines(src@);
    let ghost mut done: Seq<Seq<char>> = Seq::empty();
    assert(lines == done + lines_scan(src@, 0, 0));
    loop
        invariant_except_break
            ls <= src@.len(),
            count <= ls,
            lines == done + lines_scan(src@, ls as int, ls as int),
        invariant
            lines == split_lines(src@),
            label_pass(done) == (table@, count as int),
        ensures
            lines == done,
            label_pass(done).0 == table@,
        decreases src@.len() - ls,
    {
        let le = scan_char(src, ls, '\n');
        proof {
            lemma_lines_scan(src@, ls as int, ls as int);
        }
        let line = slice_subrange(src, ls, le);
        let (a, b) = content_span(line);
        assert(done.push(line@).drop_last() =~= done);
        if b > a {
            if line[b - 1] == ':' {
                let name = slice_to_vec(slice_subrange(line, a, b - 1));
                assert(name@ =~= content(line@).drop_last());
                table.insert_chars(name, count);
            } else {
                count = count + 1;
            }
        }
        proof {
            done = done.push(line@);
        }
        if le >= src.len() {
            assert(lines =~= done);
            break ;
        }
        assert(lines =~= done + lines_scan(src@, le + 1, le + 1));
        ls = le + 1;
    }
    table
}

/// Assembles a source text into a program, in two passes over its lines.
/// The first collects the labels: a line whose content ends in `:` names
/// the index of the next instruction. The second decodes every other
/// non-empty line, resolving jump targets through the labels, and stops at
/// the first line that fails. Float literals are handed to `parse_float`.
#[verifier::rlimit(20)]
pub fn assemble<P: Fn(&str) -> Option<u64>>(source: &str, parse_float: &P) -> (r: Result<
    Vec<Ins>,
    AsmError,
>)
    requires
        parser_total(*parse_float),
    ensures
        exists|fv: spec_fn(int) -> Option<u64>|
            floats_fit(*parse_float, split_lines(source@), labels_of(source@), fv) && match assembled(
                source@,
                fv,
            ) {
                Ok(p) => r is Ok && r->Ok_0@ == p,
                Err((f, k)) => r is Err && r->Err_0.fault() == f && r->Err_0.text() == split_lines(
                    source@,
                )[k],
            },
{
    let chars = chars_of(source);
    let src = chars.as_slice();
    let labels = collect_labels(src);
    let mut program: Vec<Ins> = Vec::new();
    let mut ls: usize = 0;
    let ghost lines = split_lines(src@);
    let ghost mut done: Seq<Seq<char>> = Seq::empty();
    let ghost mut fv: spec_fn(int) -> Option<u64> = |k: int| None::<u64>;
    assert(lines == done + lines_scan(src@, 0, 0));
    loop
        invariant_except_break
            ls <= src@.len(),
            lines == done + lines_scan(src@, ls as int, ls as int),
        invariant
            src@ == source@,
            lines == split_lines(src@),
            labels@ == labels_of(source@),
            parser_total(*parse_float),
            assemble_lines(done, labels@, fv) == Ok::<Seq<Ins>, (AsmFault, int)>(program@),
            floats_fit(*parse_float, done, labels@, fv),
        ensures
            lines == done,
        decreases src@.len() - ls,
    {
        let le = scan_char(src, ls, '\n');
        proof {
            lemma_lines_scan(src@, ls as int, ls as int);
        }
        let line = slice_subrange(src, ls, le);
        let ghost k = done.len() as int;
        let ghost next_done = done.push(line@);
        assert(next_done.drop_last() =~= done);
        assert(source@.subrange(ls as int, ls + line@.len()) =~= line@);
        let res = assemble_line(line, source, ls, &labels, parse_float);
        let ghost fb = choose|fb: Option<u64>|
            (!is_label(content(line@)) ==> float_fits(*parse_float, content(line@), fb)) && res
                == line_outcome(content(line@), labels@, fb);
        let ghost old_fv = fv;
        proof {
            fv = |j: int| if j == k {
                fb
            } else {
                old_fv(j)
            };
            lemma_assemble_frame(done, labels@, old_fv, fv);
            lemma_floats_fit_frame(*parse_float, done, labels@, old_fv, fv);
            lemma_floats_fit_push(*parse_float, done, line@, labels@, fv);
        }
        match res {
            Ok(Some(i)) => {
                program.push(i);
            },
            Ok(None) => {},
            Err(f) => {
                proof {
                    assert(lines.take(k + 1) =~= next_done);
                    lemma_error_outcome(*parse_float, lines, labels@, fv, k);
                }
                return Err(line_error(f, source, ls, le));
            },
        }
        proof {
            done = next_done;
        }
        if le >= src.len() {
            assert(lines =~= done);
            break ;
        }
        assert(lines =~= done + lines_scan(src@, le + 1, le + 1));
        ls = le + 1;
    }
    proof {
        assert(lines == split_lines(source@));
    }
    Ok(program)
}

} // verus!
