//! Ramp commands: from the text of a command to the runs of samples that it
//! asks for.
//!
//! The output of a command starts at the level zero. A hold repeats the level
//! that the output stands at; a ramp walks from that level to its target in
//! equal steps and leaves the output at the target. A directive that asks for
//! no sample does nothing at all.

use vstd::prelude::*;
use crate::error::CsvError;
use crate::grammar::{
    count_in, count_of, count_value, decimal_splits_at, is_count, is_decimal, is_digit,
    is_hold_token, is_ramp_token, is_unsigned_decimal, lemma_count_value_nonnegative,
    ramp_splits_at, split, split_commands,
};
use crate::pattern::{pattern_matches, HOLD_PATTERN, RAMP_PATTERN};
use crate::text::{chars_of, string_of};

verus! {

/// One directive of a command, as written.
#[derive(Debug, PartialEq, Eq)]
pub enum Directive {
    /// Stay at the present level for `samples` samples.
    Hold { samples: u64 },
    /// Reach `target`, a decimal, in `samples` samples.
    Ramp { target: String, samples: u64 },
}

/// What a `Directive` holds.
pub enum DirectiveView {
    Hold { samples: u64 },
    Ramp { target: Seq<char>, samples: u64 },
}

impl View for Directive {
    type V = DirectiveView;

    open spec fn view(&self) -> DirectiveView {
        match *self {
            Directive::Hold { samples } => DirectiveView::Hold { samples },
            Directive::Ramp { target, samples } => DirectiveView::Ramp { target: target@, samples },
        }
    }
}

impl Clone for Directive {
    fn clone(&self) -> (r: Directive)
        ensures
            r@ == self@,
    {
        match self {
            Directive::Hold { samples } => Directive::Hold { samples: *samples },
            Directive::Ramp { target, samples } => Directive::Ramp {
                target: target.clone(),
                samples: *samples,
            },
        }
    }
}

/// A level of the output: zero, or the target of a ramp, kept as the decimal
/// that the command wrote.
#[derive(Debug, PartialEq, Eq)]
pub enum Level {
    Zero,
    Target(String),
}

/// What a `Level` holds.
pub enum LevelView {
    Zero,
    Target(Seq<char>),
}

impl View for Level {
    type V = LevelView;

    open spec fn view(&self) -> LevelView {
        match *self {
            Level::Zero => LevelView::Zero,
            Level::Target(target) => LevelView::Target(target@),
        }
    }
}

impl Clone for Level {
    fn clone(&self) -> (r: Level)
        ensures
            r@ == self@,
    {
        match self {
            Level::Zero => Level::Zero,
            Level::Target(target) => Level::Target(target.clone()),
        }
    }
}

/// A run of samples in the output.
#[derive(Debug, PartialEq, Eq)]
pub enum Step {
    /// `samples` samples, each at `level`.
    Hold { level: Level, samples: u64 },
    /// `samples` samples that leave `from` in equal steps; the last one is at
    /// `target`.
    Ramp { from: Level, target: String, samples: u64 },
}

/// What a `Step` holds.
pub enum StepView {
    Hold { level: LevelView, samples: u64 },
    Ramp { from: LevelView, target: Seq<char>, samples: u64 },
}

impl View for Step {
    type V = StepView;

    open spec fn view(&self) -> StepView {
        match *self {
            Step::Hold { level, samples } => StepView::Hold { level: level@, samples },
            Step::Ramp { from, target, samples } => StepView::Ramp {
                from: from@,
                target: target@,
                samples,
            },
        }
    }
}

impl Clone for Step {
    fn clone(&self) -> (r: Step)
        ensures
            r@ == self@,
    {
        match self {
            Step::Hold { level, samples } => Step::Hold { level: level.clone(), samples: *samples },
            Step::Ramp { from, target, samples } => Step::Ramp {
                from: from.clone(),
                target: target.clone(),
                samples: *samples,
            },
        }
    }
}

impl DeepView for Step {
    type V = StepView;

    open spec fn deep_view(&self) -> StepView {
        self@
    }
}

impl DirectiveView {
    /// The number of samples that the directive asks for.
    pub open spec fn samples(self) -> u64 {
        match self {
            DirectiveView::Hold { samples } => samples,
            DirectiveView::Ramp { samples, .. } => samples,
        }
    }

    /// The directive is one that a command can write.
    pub open spec fn well_formed(self) -> bool {
        match self {
            DirectiveView::Hold { .. } => true,
            DirectiveView::Ramp { target, .. } => is_decimal(target),
        }
    }
}

impl StepView {
    /// The number of samples in the run.
    pub open spec fn samples(self) -> u64 {
        match self {
            StepView::Hold { samples, .. } => samples,
            StepView::Ramp { samples, .. } => samples,
        }
    }
}

/// The index of the comma in a ramp directive.
pub open spec fn ramp_comma(t: Seq<char>) -> int {
    choose|comma: int| ramp_splits_at(t, comma)
}

/// What one directive of a command says, or why it is refused.
pub open spec fn parse_token(t: Seq<char>) -> Result<DirectiveView, CsvError> {
    if is_hold_token(t) {
        match count_of(t.subrange(1, t.len() - 1)) {
            Some(samples) => Ok(DirectiveView::Hold { samples }),
            None => Err(CsvError::Number),
        }
    } else if is_ramp_token(t) {
        match count_of(t.subrange(ramp_comma(t) + 1, t.len() - 1)) {
            Some(samples) => Ok(
                DirectiveView::Ramp { target: t.subrange(1, ramp_comma(t)), samples },
            ),
            None => Err(CsvError::Number),
        }
    } else {
        Err(CsvError::Format)
    }
}

/// The run of samples that `directive` gives with the output at `level`, if
/// it gives any.
pub open spec fn step_of(level: LevelView, directive: DirectiveView) -> Option<StepView> {
    match directive {
        DirectiveView::Hold { samples } => if samples > 0 {
            Some(StepView::Hold { level, samples })
        } else {
            None
        },
        DirectiveView::Ramp { target, samples } => if samples > 0 {
            Some(StepView::Ramp { from: level, target, samples })
        } else {
            None
        },
    }
}

/// The level of the output after `directive`, which found it at `level`.
pub open spec fn level_past(level: LevelView, directive: DirectiveView) -> LevelView {
    match directive {
        DirectiveView::Hold { .. } => level,
        DirectiveView::Ramp { target, samples } => if samples > 0 {
            LevelView::Target(target)
        } else {
            level
        },
    }
}

/// A decimal is made of digits, signs and dots.
pub proof fn lemma_decimal_has_no_comma(s: Seq<char>, i: int)
    requires
        is_decimal(s),
        0 <= i < s.len(),
    ensures
        s[i] != ',',
{
    let signed = s.len() > 0 && (s[0] == '+' || s[0] == '-');
    let body = if signed { s.skip(1) } else { s };
    let k = if signed { i - 1 } else { i };
    assert(is_unsigned_decimal(body));
    if k >= 0 {
        assert(body[k] == s[i]);
        if is_count(body) {
            assert(is_digit(body[k]));
        } else {
            let dot = choose|dot: int| decimal_splits_at(body, dot);
            if k < dot {
                assert(is_digit(body.take(dot)[k]));
            } else if k > dot {
                assert(is_digit(body.skip(dot + 1)[k - dot - 1]));
            }
        }
    }
}

/// A ramp directive has its comma in one place only: where the first comma
/// of the text is.
pub proof fn lemma_ramp_comma(t: Seq<char>, comma: int)
    requires
        is_ramp_token(t),
        0 <= comma < t.len(),
        t[comma] == ',',
        forall|i: int| 0 <= i < comma ==> t[i] != ',',
    ensures
        ramp_splits_at(t, comma),
        ramp_comma(t) == comma,
{
    let c = ramp_comma(t);
    assert(ramp_splits_at(t, c));
    if comma < c {
        assert(t[0] == '/');
        lemma_decimal_has_no_comma(t.subrange(1, c), comma - 1);
    }
    assert(c == comma);
}

/// What the outcome of reading a directive holds.
pub open spec fn directive_outcome(r: Result<Directive, CsvError>) -> Result<
    DirectiveView,
    CsvError,
> {
    match r {
        Ok(directive) => Ok(directive@),
        Err(e) => Err(e),
    }
}

/// Reads one directive: a hold or a ramp with a count that fits in 64 bits.
/// Any other text is refused, `CsvError::Format` where it is no directive and
/// `CsvError::Number` where its count is too large.
pub fn parse_directive(token: &str) -> (r: Result<Directive, CsvError>)
    ensures
        directive_outcome(r) == parse_token(token@),
{
    let hold = match pattern_matches(HOLD_PATTERN, token) {
        Ok(found) => found,
        Err(_) => { return Err(CsvError::Pattern); },
    };
    if hold {
        let chars = chars_of(token);
        return match count_in(&chars, 1, chars.len() - 1) {
            Some(samples) => Ok(Directive::Hold { samples }),
            None => Err(CsvError::Number),
        };
    }
    let ramp = match pattern_matches(RAMP_PATTERN, token) {
        Ok(found) => found,
        Err(_) => { return Err(CsvError::Pattern); },
    };
    if !ramp {
        return Err(CsvError::Format);
    }
    let chars = chars_of(token);
    proof {
        assert(ramp_splits_at(chars@, ramp_comma(chars@)));
    }
    let mut comma: usize = 0;
    while chars[comma] != ','
        invariant
            0 <= comma <= ramp_comma(chars@) < chars@.len() <= usize::MAX,
            chars@[ramp_comma(chars@)] == ',',
            forall|i: int| 0 <= i < comma ==> chars@[i] != ',',
        decreases chars@.len() - comma,
    {
        comma += 1;
    }
    proof {
        lemma_ramp_comma(chars@, comma as int);
    }
    match count_in(&chars, comma + 1, chars.len() - 1) {
        Some(samples) => Ok(Directive::Ramp { target: string_of(&chars, 1, comma), samples }),
        None => Err(CsvError::Number),
    }
}

/// Moves the output past one directive: gives the run of samples to put out,
/// if there is one, and the level that the output then stands at.
pub fn advance(level: &Level, directive: &Directive) -> (r: (Option<Step>, Level))
    ensures
        r.0.deep_view() == step_of(level@, directive@),
        r.1@ == level_past(level@, directive@),
{
    match directive {
        Directive::Hold { samples } => {
            if *samples > 0 {
                (Some(Step::Hold { level: level.clone(), samples: *samples }), level.clone())
            } else {
                (None, level.clone())
            }
        },
        Directive::Ramp { target, samples } => {
            if *samples > 0 {
                (
                    Some(
                        Step::Ramp { from: level.clone(), target: target.clone(), samples: *samples },
                    ),
                    Level::Target(target.clone()),
                )
            } else {
                (None, level.clone())
            }
        },
    }
}

/// The directives that the pieces of a command write, or the reason for which
/// the first piece that is refused is refused.
pub open spec fn parse_all(tokens: Seq<Seq<char>>) -> Result<Seq<DirectiveView>, CsvError>
    decreases tokens.len(),
{
    if tokens.len() == 0 {
        Ok(Seq::empty())
    } else {
        match parse_all(tokens.drop_last()) {
            Err(e) => Err(e),
            Ok(directives) => match parse_token(tokens.last()) {
                Ok(directive) => Ok(directives.push(directive)),
                Err(e) => Err(e),
            },
        }
    }
}

/// The level of the output after `directives`, which found it at zero: the
/// target of the last ramp among them that asks for a sample, and zero where
/// there is none.
pub open spec fn level_after(directives: Seq<DirectiveView>) -> LevelView
    decreases directives.len(),
{
    if directives.len() == 0 {
        LevelView::Zero
    } else {
        level_past(level_after(directives.drop_last()), directives.last())
    }
}

/// `directive` is a ramp that asks for a sample: the only kind of directive
/// that moves the level of the output.
pub open spec fn moves_level(directive: DirectiveView) -> bool {
    directive is Ramp && directive.samples() > 0
}

/// The output stands at zero as long as no ramp has asked for a sample, and
/// from then on at the target of the last ramp that did: a hold, and a
/// directive that asks for no sample, leave the level as it is.
pub proof fn lemma_level_after(directives: Seq<DirectiveView>)
    ensures
        match level_after(directives) {
            LevelView::Zero => forall|i: int|
                0 <= i < directives.len() ==> !moves_level(#[trigger] directives[i]),
            LevelView::Target(target) => exists|i: int|
                {
                    &&& 0 <= i < directives.len()
                    &&& moves_level(#[trigger] directives[i])
                    &&& directives[i]->target == target
                    &&& forall|j: int|
                        i < j < directives.len() ==> !moves_level(#[trigger] directives[j])
                },
        },
    decreases directives.len(),
{
    if directives.len() > 0 {
        let head = directives.drop_last();
        let last = directives.last();
        lemma_level_after(head);
        if moves_level(last) {
            let i = directives.len() - 1;
            assert(moves_level(directives[i]));
        } else {
            match level_after(head) {
                LevelView::Zero => {
                    assert forall|i: int| 0 <= i < directives.len() implies !moves_level(
                        #[trigger] directives[i],
                    ) by {
                        if i < head.len() {
                            assert(directives[i] == head[i]);
                        }
                    }
                },
                LevelView::Target(target) => {
                    let i = choose|i: int|
                        {
                            &&& 0 <= i < head.len()
                            &&& moves_level(#[trigger] head[i])
                            &&& head[i]->target == target
                            &&& forall|j: int| i < j < head.len() ==> !moves_level(#[trigger] head[j])
                        };
                    assert(directives[i] == head[i]);
                    assert forall|j: int| i < j < directives.len() implies !moves_level(
                        #[trigger] directives[j],
                    ) by {
                        if j < head.len() {
                            assert(directives[j] == head[j]);
                        }
                    }
                },
            }
        }
    }
}

/// A directive that is read is well formed: the target of a ramp is a decimal.
pub proof fn lemma_parsed_directive_well_formed(t: Seq<char>)
    requires
        parse_token(t) is Ok,
    ensures
        parse_token(t)->Ok_0.well_formed(),
{
    if !is_hold_token(t) {
        assert(ramp_splits_at(t, ramp_comma(t)));
    }
}

/// The runs of samples that `directives` give, in order, with the output at
/// zero before the first.
pub open spec fn schedule(directives: Seq<DirectiveView>) -> Seq<StepView>
    decreases directives.len(),
{
    if directives.len() == 0 {
        Seq::empty()
    } else {
        let before = schedule(directives.drop_last());
        match step_of(level_after(directives.drop_last()), directives.last()) {
            Some(step) => before.push(step),
            None => before,
        }
    }
}

/// The runs of samples that a command asks for, or why it is refused.
pub open spec fn generate(commands: Seq<char>) -> Result<Seq<StepView>, CsvError> {
    match parse_all(split(commands)) {
        Ok(directives) => Ok(schedule(directives)),
        Err(e) => Err(e),
    }
}

/// The number of lines that writing out `steps` takes: one for each sample.
pub open spec fn line_count(steps: Seq<StepView>) -> int
    decreases steps.len(),
{
    if steps.len() == 0 {
        0
    } else {
        line_count(steps.drop_last()) + steps.last().samples()
    }
}

/// `t` is a directive: a hold or a ramp.
pub open spec fn is_directive(t: Seq<char>) -> bool {
    is_hold_token(t) || is_ramp_token(t)
}

/// The number that the count of the directive `t` writes, however large.
pub open spec fn written_count(t: Seq<char>) -> int {
    if is_hold_token(t) {
        count_value(t.subrange(1, t.len() - 1))
    } else if is_ramp_token(t) {
        count_value(t.subrange(ramp_comma(t) + 1, t.len() - 1))
    } else {
        0
    }
}

/// The sum of the counts that the directives `tokens` write.
pub open spec fn written_samples(tokens: Seq<Seq<char>>) -> int
    decreases tokens.len(),
{
    if tokens.len() == 0 {
        0
    } else {
        written_samples(tokens.drop_last()) + written_count(tokens.last())
    }
}

/// What the outcome of reading a command holds.
pub open spec fn plan_outcome(r: Result<Vec<Step>, CsvError>) -> Result<Seq<StepView>, CsvError> {
    match r {
        Ok(steps) => Ok(steps.deep_view()),
        Err(e) => Err(e),
    }
}

/// Once a piece is refused, the pieces after it change nothing.
pub proof fn lemma_refusal_stays(tokens: Seq<Seq<char>>, k: int)
    requires
        0 <= k <= tokens.len(),
        parse_all(tokens.take(k)) is Err,
    ensures
        parse_all(tokens) == parse_all(tokens.take(k)),
    decreases tokens.len() - k,
{
    if k == tokens.len() {
        assert(tokens.take(k) =~= tokens);
    } else {
        assert(tokens.take(k + 1).drop_last() =~= tokens.take(k));
        lemma_refusal_stays(tokens, k + 1);
    }
}

/// `parse_all` reads every piece where none is refused, and else gives the
/// error of the first piece that is.
pub proof fn lemma_parse_all_outcome(tokens: Seq<Seq<char>>)
    ensures
        match parse_all(tokens) {
            Ok(directives) => {
                &&& directives.len() == tokens.len()
                &&& forall|i: int|
                    0 <= i < tokens.len() ==> parse_token(#[trigger] tokens[i]) == Ok::<
                        DirectiveView,
                        CsvError,
                    >(directives[i])
            },
            Err(e) => exists|i: int|
                {
                    &&& 0 <= i < tokens.len()
                    &&& #[trigger] parse_token(tokens[i]) == Err::<DirectiveView, CsvError>(e)
                    &&& forall|j: int| 0 <= j < i ==> parse_token(#[trigger] tokens[j]) is Ok
                },
        },
    decreases tokens.len(),
{
    if tokens.len() > 0 {
        let head = tokens.drop_last();
        lemma_parse_all_outcome(head);
        match parse_all(head) {
            Ok(directives) => {
                match parse_token(tokens.last()) {
                    Ok(directive) => {
                        let all = directives.push(directive);
                        assert forall|i: int| 0 <= i < tokens.len() implies parse_token(
                            #[trigger] tokens[i],
                        ) == Ok::<DirectiveView, CsvError>(all[i]) by {
                            if i < head.len() {
                                assert(tokens[i] == head[i]);
                            }
                        }
                    },
                    Err(e) => {
                        let i = tokens.len() - 1;
                        assert(parse_token(tokens[i]) == Err::<DirectiveView, CsvError>(e));
                        assert forall|j: int| 0 <= j < i implies parse_token(
                            #[trigger] tokens[j],
                        ) is Ok by {
                            assert(tokens[j] == head[j]);
                        }
                    },
                }
            },
            Err(e) => {
                let i = choose|i: int|
                    {
                        &&& 0 <= i < head.len()
                        &&& #[trigger] parse_token(head[i]) == Err::<DirectiveView, CsvError>(e)
                        &&& forall|j: int| 0 <= j < i ==> parse_token(#[trigger] head[j]) is Ok
                    };
                assert(tokens[i] == head[i]);
                assert forall|j: int| 0 <= j < i implies parse_token(#[trigger] tokens[j]) is Ok by {
                    assert(tokens[j] == head[j]);
                }
            },
        }
    }
}

/// The runs that directives give hold, together, the samples that the
/// directives ask for.
pub proof fn lemma_schedule_line_count(tokens: Seq<Seq<char>>)
    requires
        parse_all(tokens) is Ok,
    ensures
        line_count(schedule(parse_all(tokens)->Ok_0)) == written_samples(tokens),
    decreases tokens.len(),
{
    if tokens.len() > 0 {
        let head = tokens.drop_last();
        lemma_schedule_line_count(head);
        let before = parse_all(head)->Ok_0;
        let directive = parse_token(tokens.last())->Ok_0;
        let all = before.push(directive);
        assert(all.drop_last() =~= before);
        assert(directive.samples() == written_count(tokens.last())) by {
            let t = tokens.last();
            if is_hold_token(t) {
                lemma_count_value_nonnegative(t.subrange(1, t.len() - 1));
            } else {
                lemma_count_value_nonnegative(t.subrange(ramp_comma(t) + 1, t.len() - 1));
            }
        }
        match step_of(level_after(before), directive) {
            Some(step) => {
                assert(schedule(all).drop_last() =~= schedule(before));
            },
            None => {},
        }
    }
}

/// Every command made only of holds and ramps whose counts fit in 64 bits is
/// accepted, and the runs that it gives hold as many samples, and so take as
/// many lines, as the counts of its directives add up to.
pub proof fn lemma_lines_are_the_samples_asked_for(commands: Seq<char>)
    requires
        forall|i: int| 0 <= i < split(commands).len() ==> is_directive(#[trigger] split(commands)[i]),
        forall|i: int|
            0 <= i < split(commands).len() ==> written_count(#[trigger] split(commands)[i])
                <= u64::MAX,
    ensures
        generate(commands) is Ok,
        line_count(generate(commands)->Ok_0) == written_samples(split(commands)),
{
    let tokens = split(commands);
    lemma_parse_all_outcome(tokens);
    if parse_all(tokens) is Err {
        let i = choose|i: int| 0 <= i < tokens.len() && #[trigger] parse_token(tokens[i]) is Err;
        let t = tokens[i];
        assert(is_directive(t));
        assert(written_count(t) <= u64::MAX);
    }
    lemma_schedule_line_count(tokens);
}

/// Reads a command and gives the runs of samples that it asks for, in order.
///
/// The command is refused with the error of its first piece that
/// `parse_directive` refuses. Where it is accepted, the runs hold as many
/// samples as the counts of its directives add up to.
pub fn single_line_gencsv_with_ramps(commands: &str) -> (r: Result<Vec<Step>, CsvError>)
    ensures
        plan_outcome(r) == generate(commands@),
        r is Ok ==> line_count(plan_outcome(r)->Ok_0) == written_samples(split(commands@)),
{
    let tokens = split_commands(commands);
    let ghost pieces = tokens.deep_view();
    let mut steps: Vec<Step> = Vec::new();
    let mut level = Level::Zero;
    let ghost mut directives: Seq<DirectiveView> = Seq::empty();
    let mut i: usize = 0;
    while i < tokens.len()
        invariant
            i <= tokens.len(),
            pieces == tokens.deep_view(),
            pieces == split(commands@),
            parse_all(pieces.take(i as int)) == Ok::<Seq<DirectiveView>, CsvError>(directives),
            steps.deep_view() == schedule(directives),
            level@ == level_after(directives),
        decreases tokens.len() - i,
    {
        proof {
            assert(pieces.take(i + 1).drop_last() =~= pieces.take(i as int));
            assert(pieces.take(i + 1).last() == tokens[i as int]@);
        }
        let directive = match parse_directive(tokens[i].as_str()) {
            Ok(directive) => directive,
            Err(e) => {
                proof {
                    lemma_refusal_stays(pieces, i + 1);
                }
                return Err(e);
            },
        };
        let (step, next) = advance(&level, &directive);
        proof {
            assert(directives.push(directive@).drop_last() =~= directives);
        }
        match step {
            Some(step) => {
                let ghost before = steps.deep_view();
                steps.push(step);
                proof {
                    assert(steps.deep_view() =~= before.push(step@));
                }
            },
            None => {},
        }
        level = next;
        proof {
            directives = directives.push(directive@);
        }
        i += 1;
    }
    proof {
        assert(pieces.take(tokens.len() as int) =~= pieces);
        lemma_schedule_line_count(pieces);
    }
    Ok(steps)
}

} // verus!
