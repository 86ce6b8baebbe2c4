//! Bounded data contracts and schema rules of the native questionnaire flow:
//! answers, question and choice descriptors, commands, and the whole-schema
//! rules checked before a questionnaire is published.
use vstd::prelude::*;
use crate::text::{
    blank_spec, bounded_byte_len, byte_len, bytes_at_most, chars_of, is_blank, join2, join3,
    owned, same_text,
};

verus! {

broadcast use vstd::string::group_string_axioms;

pub const MAX_ITEMS: usize = 256;
pub const MAX_CHOICES_PER_ITEM: usize = 128;
pub const MAX_NAME_BYTES: usize = 256;
pub const MAX_TEXT_BYTES: usize = 4096;
pub const MAX_INPUT_TEXT_BYTES: usize = 8192;
/// Aggregate budget for every schema text (names, labels, descriptions,
/// input seeds).
pub const MAX_SCHEMA_TEXT_BYTES: usize = 512 * 1024;
/// The native-call wire budget a full response must fit in (1 MiB).
pub const MAX_NATIVE_CALL_BYTES: usize = 1024 * 1024;

/// Keyboard shortcuts offered for choices.
#[derive(Clone, Copy, Debug, PartialEq, Eq, Structural)]
pub enum QuestionnaireShortcutMode {
    Letters,
    Numbers,
}

/// Whether a question was answered or skipped.
#[derive(Clone, Copy, Debug, PartialEq, Eq, Structural)]
pub enum QuestionnaireItemStatus {
    Unanswered,
    Answered,
    Skipped,
}

/// One answer; also a command payload.
#[derive(Clone, Debug, Default, PartialEq, Eq)]
pub struct QuestionnaireAnswer {
    pub choices: Vec<String>,
    pub freeform: Option<String>,
}

#[derive(Clone, Copy, Debug, PartialEq, Eq, Structural)]
pub struct QuestionnaireProgress {
    pub current: usize,
    pub total: usize,
}

#[derive(Clone, Copy, Debug, PartialEq, Eq, Structural)]
pub struct QuestionnaireNavigation {
    pub previous_visible: bool,
    pub next_visible: bool,
    pub skip_visible: bool,
    pub submit_visible: bool,
    pub confirmable: bool,
}

/// Why an item currently fails validation.
#[derive(Clone, Copy, Debug, PartialEq, Eq, Structural)]
pub enum QuestionnaireErrorReason {
    Required,
    Unanswered,
    Message,
}

#[derive(Clone, Debug, PartialEq, Eq)]
pub struct QuestionnaireError {
    pub reason: QuestionnaireErrorReason,
    pub message: Option<String>,
}

#[derive(Clone, Debug, PartialEq, Eq)]
pub struct QuestionnaireChoiceSnapshot {
    pub value: String,
    pub selected: bool,
    pub disabled: bool,
    pub invalid: bool,
    pub shortcut: Option<String>,
}

#[derive(Clone, Debug, PartialEq, Eq)]
pub struct QuestionnaireItemSnapshot {
    pub name: String,
    pub status: QuestionnaireItemStatus,
    pub required: bool,
    pub multiple: bool,
    pub disabled: bool,
    pub invalid: bool,
    pub has_input: bool,
    pub answer: QuestionnaireAnswer,
    pub error: Option<QuestionnaireError>,
    pub choices: Vec<QuestionnaireChoiceSnapshot>,
}

#[derive(Clone, Debug, PartialEq, Eq)]
pub struct QuestionnaireSnapshot {
    pub current: Option<String>,
    pub progress: QuestionnaireProgress,
    pub navigation: QuestionnaireNavigation,
    pub complete: bool,
    pub items: Vec<QuestionnaireItemSnapshot>,
}

#[derive(Clone, Debug, PartialEq, Eq)]
pub struct QuestionnaireSubmissionItem {
    pub name: String,
    pub status: QuestionnaireItemStatus,
    pub answer: QuestionnaireAnswer,
}

#[derive(Clone, Debug, PartialEq, Eq)]
pub struct QuestionnaireSubmission {
    pub items: Vec<QuestionnaireSubmissionItem>,
}

#[derive(Clone, Debug, PartialEq, Eq)]
pub struct QuestionnaireAnswerChange {
    pub item: String,
    pub answer: QuestionnaireAnswer,
    pub status: QuestionnaireItemStatus,
}

#[derive(Clone, Debug, PartialEq, Eq)]
pub struct QuestionnaireChange {
    pub previous: Option<String>,
    pub current: Option<String>,
}

/// A question's descriptor.
#[derive(Clone, Debug, Default, PartialEq)]
pub struct QuestionnaireItemProps {
    pub name: String,
    pub accessibility_label: String,
    pub description: Option<String>,
    pub required: bool,
    pub multiple: bool,
    pub disabled: bool,
}

/// One choice of a question.
#[derive(Clone, Debug, Default, PartialEq)]
pub struct QuestionnaireChoiceProps {
    pub value: String,
    pub accessibility_label: String,
    pub description: Option<String>,
    pub disabled: bool,
    pub default_selected: bool,
}

/// The freeform input of a question.
#[derive(Clone, Debug, Default, PartialEq)]
pub struct QuestionnaireInputProps {
    pub accessibility_label: String,
    pub disabled: bool,
    pub placeholder: Option<String>,
    pub default_value: Option<String>,
}

/// The questionnaire root's props.
#[derive(Clone, Debug, PartialEq)]
pub struct QuestionnaireProps {
    pub shortcuts: Option<QuestionnaireShortcutMode>,
    pub show_progress: bool,
    pub show_actions: bool,
    pub initial_item: Option<String>,
    pub previous_label: Option<String>,
    pub skip_label: Option<String>,
    pub next_label: Option<String>,
    pub submit_label: Option<String>,
}

impl Default for QuestionnaireProps {
    /// Progress and actions are shown; nothing else is set.
    fn default() -> (r: Self)
        ensures
            r.shortcuts is None,
            r.show_progress,
            r.show_actions,
            r.initial_item is None,
            r.previous_label is None,
            r.skip_label is None,
            r.next_label is None,
            r.submit_label is None,
    {
        QuestionnaireProps {
            shortcuts: None,
            show_progress: true,
            show_actions: true,
            initial_item: None,
            previous_label: None,
            skip_label: None,
            next_label: None,
            submit_label: None,
        }
    }
}

#[derive(Clone, Debug, Default, PartialEq, Eq)]
pub struct QuestionnaireSetAnswer {
    pub item: String,
    pub answer: QuestionnaireAnswer,
}

#[derive(Clone, Debug, Default, PartialEq, Eq)]
pub struct QuestionnaireSetInputValue {
    pub item: String,
    pub value: String,
}

#[derive(Clone, Debug, Default, PartialEq, Eq)]
pub struct QuestionnaireSetItemDisabled {
    pub item: String,
    pub disabled: bool,
}

#[derive(Clone, Debug, Default, PartialEq, Eq)]
pub struct QuestionnaireSetChoiceDisabled {
    pub item: String,
    pub value: String,
    pub disabled: bool,
}

#[derive(Clone, Debug, Default, PartialEq, Eq)]
pub struct QuestionnaireSetExternalError {
    pub item: String,
    pub message: String,
}

#[derive(Clone, Debug, Default, PartialEq, Eq)]
pub struct QuestionnaireFocusChoice {
    pub item: String,
    pub value: String,
}

/// `Ok(())` as `None`, an error as its message.
pub open spec fn outcome(r: Result<(), String>) -> Option<Seq<char>> {
    match r {
        Ok(()) => None,
        Err(m) => Some(m@),
    }
}

/// Names are not blank and take at most 256 bytes.
pub open spec fn name_check(value: Seq<char>) -> Option<Seq<char>> {
    if blank_spec(value) {
        Some("names must not be empty"@)
    } else if byte_len(value) > MAX_NAME_BYTES {
        Some("names may contain at most 256 bytes"@)
    } else {
        None
    }
}

/// Required text is not blank and takes at most 4096 bytes.
pub open spec fn text_check(field: Seq<char>, value: Seq<char>) -> Option<Seq<char>> {
    if blank_spec(value) {
        Some(field + " must not be empty"@)
    } else if byte_len(value) > MAX_TEXT_BYTES {
        Some(field + " may contain at most 4096 bytes"@)
    } else {
        None
    }
}

/// Optional text takes at most 4096 bytes.
pub open spec fn optional_text_check(field: Seq<char>, value: Seq<char>) -> Option<Seq<char>> {
    if byte_len(value) > MAX_TEXT_BYTES {
        Some(field + " may contain at most 4096 bytes"@)
    } else {
        None
    }
}

pub open spec fn opt_text(v: Option<String>) -> Option<Seq<char>> {
    match v {
        Some(s) => Some(s@),
        None => None,
    }
}

/// The first error of two checks in order.
pub open spec fn first_error(a: Option<Seq<char>>, b: Option<Seq<char>>) -> Option<Seq<char>> {
    if a is Some {
        a
    } else {
        b
    }
}

pub open spec fn optional_field_check(field: Seq<char>, value: Option<Seq<char>>) -> Option<
    Seq<char>,
> {
    match value {
        Some(v) => optional_text_check(field, v),
        None => None,
    }
}

/// Validates a name.
pub fn valid_name(value: &str) -> (r: Result<(), String>)
    ensures
        outcome(r) == name_check(value@),
{
    if is_blank(value) {
        Err(owned("names must not be empty"))
    } else if !bytes_at_most(value, MAX_NAME_BYTES) {
        Err(owned("names may contain at most 256 bytes"))
    } else {
        Ok(())
    }
}

/// Validates a required text field.
pub fn valid_text(field: &str, value: &str) -> (r: Result<(), String>)
    ensures
        outcome(r) == text_check(field@, value@),
{
    if is_blank(value) {
        Err(join2(field, " must not be empty"))
    } else if !bytes_at_most(value, MAX_TEXT_BYTES) {
        Err(join2(field, " may contain at most 4096 bytes"))
    } else {
        Ok(())
    }
}

/// Validates an optional text field.
pub fn valid_optional_text(field: &str, value: &str) -> (r: Result<(), String>)
    ensures
        outcome(r) == optional_text_check(field@, value@),
{
    if !bytes_at_most(value, MAX_TEXT_BYTES) {
        Err(join2(field, " may contain at most 4096 bytes"))
    } else {
        Ok(())
    }
}

fn optional_field(field: &str, value: &Option<String>) -> (r: Result<(), String>)
    ensures
        outcome(r) == optional_field_check(field@, opt_text(*value)),
{
    match value {
        Some(v) => valid_optional_text(field, v.as_str()),
        None => Ok(()),
    }
}

/// An answer selects at most 128 choices, each a valid name, and its
/// freeform text takes at most 8192 bytes.
pub open spec fn answer_check(a: QuestionnaireAnswer) -> Option<Seq<char>> {
    if a.choices@.len() > MAX_CHOICES_PER_ITEM {
        Some("an answer selects at most 128 choices"@)
    } else if exists|i: int| 0 <= i < a.choices@.len() && name_check(#[trigger] a.choices@[i]@) is Some {
        Some("answer choice values must be valid names"@)
    } else {
        match a.freeform {
            Some(f) => if byte_len(f@) > MAX_INPUT_TEXT_BYTES {
                Some("freeform answers may contain at most 8192 bytes"@)
            } else {
                None
            },
            None => None,
        }
    }
}

impl QuestionnaireAnswer {
    pub fn validate(&self) -> (r: Result<(), String>)
        ensures
            outcome(r) == answer_check(*self),
    {
        if self.choices.len() > MAX_CHOICES_PER_ITEM {
            return Err(owned("an answer selects at most 128 choices"));
        }
        let mut i: usize = 0;
        while i < self.choices.len()
            invariant
                i <= self.choices@.len(),
                self.choices@.len() <= MAX_CHOICES_PER_ITEM,
                forall|j: int| 0 <= j < i ==> name_check(#[trigger] self.choices@[j]@) is None,
            decreases self.choices@.len() - i,
        {
            let checked = valid_name(self.choices[i].as_str());
            if let Err(_) = checked {
                assert(outcome(checked) is Some);
                assert(name_check(self.choices@[i as int]@) is Some);
                assert(exists|k: int|
                    0 <= k < self.choices@.len() && name_check(#[trigger] self.choices@[k]@) is Some);
                return Err(owned("answer choice values must be valid names"));
            }
            i = i + 1;
        }
        if let Some(freeform) = &self.freeform {
            if !bytes_at_most(freeform.as_str(), MAX_INPUT_TEXT_BYTES) {
                return Err(owned("freeform answers may contain at most 8192 bytes"));
            }
        }
        Ok(())
    }
}

pub open spec fn item_props_check(p: QuestionnaireItemProps) -> Option<Seq<char>> {
    first_error(
        name_check(p.name@),
        first_error(
            text_check("accessibilityLabel"@, p.accessibility_label@),
            optional_field_check("description"@, opt_text(p.description)),
        ),
    )
}

impl QuestionnaireItemProps {
    pub fn validate(&self) -> (r: Result<(), String>)
        ensures
            outcome(r) == item_props_check(*self),
    {
        valid_name(self.name.as_str())?;
        valid_text("accessibilityLabel", self.accessibility_label.as_str())?;
        optional_field("description", &self.description)
    }
}

pub open spec fn choice_props_check(p: QuestionnaireChoiceProps) -> Option<Seq<char>> {
    first_error(
        name_check(p.value@),
        first_error(
            text_check("accessibilityLabel"@, p.accessibility_label@),
            optional_field_check("description"@, opt_text(p.description)),
        ),
    )
}

impl QuestionnaireChoiceProps {
    pub fn validate(&self) -> (r: Result<(), String>)
        ensures
            outcome(r) == choice_props_check(*self),
    {
        valid_name(self.value.as_str())?;
        valid_text("accessibilityLabel", self.accessibility_label.as_str())?;
        optional_field("description", &self.description)
    }
}

pub open spec fn input_props_check(p: QuestionnaireInputProps) -> Option<Seq<char>> {
    first_error(
        text_check("accessibilityLabel"@, p.accessibility_label@),
        first_error(
            optional_field_check("placeholder"@, opt_text(p.placeholder)),
            match p.default_value {
                Some(d) => if byte_len(d@) > MAX_INPUT_TEXT_BYTES {
                    Some("defaultValue may contain at most 8192 bytes"@)
                } else {
                    None
                },
                None => None,
            },
        ),
    )
}

impl QuestionnaireInputProps {
    pub fn validate(&self) -> (r: Result<(), String>)
        ensures
            outcome(r) == input_props_check(*self),
    {
        valid_text("accessibilityLabel", self.accessibility_label.as_str())?;
        optional_field("placeholder", &self.placeholder)?;
        if let Some(default_value) = &self.default_value {
            if !bytes_at_most(default_value.as_str(), MAX_INPUT_TEXT_BYTES) {
                return Err(owned("defaultValue may contain at most 8192 bytes"));
            }
        }
        Ok(())
    }
}

pub open spec fn props_check(p: QuestionnaireProps) -> Option<Seq<char>> {
    first_error(
        match p.initial_item {
            Some(i) => name_check(i@),
            None => None,
        },
        first_error(
            optional_field_check("previousLabel"@, opt_text(p.previous_label)),
            first_error(
                optional_field_check("skipLabel"@, opt_text(p.skip_label)),
                first_error(
                    optional_field_check("nextLabel"@, opt_text(p.next_label)),
                    optional_field_check("submitLabel"@, opt_text(p.submit_label)),
                ),
            ),
        ),
    )
}

impl QuestionnaireProps {
    pub fn validate(&self) -> (r: Result<(), String>)
        ensures
            outcome(r) == props_check(*self),
    {
        if let Some(initial) = &self.initial_item {
            valid_name(initial.as_str())?;
        }
        optional_field("previousLabel", &self.previous_label)?;
        optional_field("skipLabel", &self.skip_label)?;
        optional_field("nextLabel", &self.next_label)?;
        optional_field("submitLabel", &self.submit_label)
    }
}

impl QuestionnaireSetAnswer {
    pub fn validate(&self) -> (r: Result<(), String>)
        ensures
            outcome(r) == first_error(name_check(self.item@), answer_check(self.answer)),
    {
        valid_name(self.item.as_str())?;
        self.answer.validate()
    }
}

impl QuestionnaireSetInputValue {
    pub fn validate(&self) -> (r: Result<(), String>)
        ensures
            outcome(r) == first_error(
                name_check(self.item@),
                if byte_len(self.value@) > MAX_INPUT_TEXT_BYTES {
                    Some("value may contain at most 8192 bytes"@)
                } else {
                    None
                },
            ),
    {
        valid_name(self.item.as_str())?;
        if !bytes_at_most(self.value.as_str(), MAX_INPUT_TEXT_BYTES) {
            return Err(owned("value may contain at most 8192 bytes"));
        }
        Ok(())
    }
}

impl QuestionnaireSetExternalError {
    pub fn validate(&self) -> (r: Result<(), String>)
        ensures
            outcome(r) == first_error(
                name_check(self.item@),
                optional_text_check("message"@, self.message@),
            ),
    {
        valid_name(self.item.as_str())?;
        valid_optional_text("message", self.message.as_str())
    }
}

impl QuestionnaireSetItemDisabled {
    /// The `setItemDisabled` command addresses an item by a valid name.
    pub fn validate(&self) -> (r: Result<(), String>)
        ensures
            outcome(r) == name_check(self.item@),
    {
        valid_name(self.item.as_str())
    }
}

impl QuestionnaireSetChoiceDisabled {
    /// The `setChoiceDisabled` command addresses a choice by valid names.
    pub fn validate(&self) -> (r: Result<(), String>)
        ensures
            outcome(r) == first_error(name_check(self.item@), name_check(self.value@)),
    {
        valid_name(self.item.as_str())?;
        valid_name(self.value.as_str())
    }
}

impl QuestionnaireFocusChoice {
    /// The `focusChoice` command addresses a choice by valid names.
    pub fn validate(&self) -> (r: Result<(), String>)
        ensures
            outcome(r) == first_error(name_check(self.item@), name_check(self.value@)),
    {
        valid_name(self.item.as_str())?;
        valid_name(self.value.as_str())
    }
}

/// A question with its choices and optional freeform input.
pub type QuestionShape = (
    QuestionnaireItemProps,
    Vec<QuestionnaireChoiceProps>,
    Option<QuestionnaireInputProps>,
);

pub open spec fn opt_bytes(v: Option<String>) -> nat {
    match v {
        Some(s) => byte_len(s@),
        None => 0,
    }
}

/// A choice before index `j` already has value `v`.
pub open spec fn value_taken(choices: Seq<QuestionnaireChoiceProps>, j: int, v: Seq<char>) -> bool {
    exists|k: int| 0 <= k < j && (#[trigger] choices[k]).value@ == v
}

/// A question before index `i` already has name `v`.
pub open spec fn name_taken(items: Seq<QuestionShape>, i: int, v: Seq<char>) -> bool {
    exists|k: int| 0 <= k < i && (#[trigger] items[k]).0.name@ == v
}

pub open spec fn duplicate_choice_message(value: Seq<char>, name: Seq<char>) -> Seq<char> {
    "duplicate choice value `"@ + value + "` in question `"@ + name + "`"@
}

pub open spec fn single_choice_message(name: Seq<char>) -> Seq<char> {
    "single-choice question `"@ + name + "` has more than one defaultSelected"@
}

/// Scans the choices of one question from `j`: each must be valid and carry
/// a value not used before. Yields the number of default selections and the
/// running text and response totals.
pub open spec fn choices_scan(
    name: Seq<char>,
    choices: Seq<QuestionnaireChoiceProps>,
    j: int,
    defaults: nat,
    text: nat,
    budget: nat,
) -> Result<(nat, nat, nat), Seq<char>>
    decreases choices.len() - j,
{
    if j < 0 || j >= choices.len() {
        Ok((defaults, text, budget))
    } else {
        let c = choices[j];
        match choice_props_check(c) {
            Some(m) => Err(m),
            None => if value_taken(choices, j, c.value@) {
                Err(duplicate_choice_message(c.value@, name))
            } else {
                choices_scan(
                    name,
                    choices,
                    j + 1,
                    defaults + (if c.default_selected {
                        1nat
                    } else {
                        0nat
                    }),
                    text + byte_len(c.value@) + byte_len(c.accessibility_label@) + opt_bytes(
                        c.description,
                    ),
                    budget + 256 + 12 * byte_len(c.value@),
                )
            },
        }
    }
}

/// Scans the questions from `i`, accumulating the schema text and the
/// response reserve; the first rule broken gives the error.
pub open spec fn items_scan(items: Seq<QuestionShape>, i: int, text: nat, budget: nat) -> Result<
    (nat, nat),
    Seq<char>,
>
    decreases items.len() - i,
{
    if i < 0 || i >= items.len() {
        Ok((text, budget))
    } else {
        let item = items[i].0;
        let choices = items[i].1@;
        let input = items[i].2;
        match item_props_check(item) {
            Some(m) => Err(m),
            None => if name_taken(items, i, item.name@) {
                Err("duplicate question name `"@ + item.name@ + "`"@)
            } else if choices.len() > MAX_CHOICES_PER_ITEM {
                Err("a question supports at most 128 choices"@)
            } else {
                match choices_scan(
                    item.name@,
                    choices,
                    0,
                    0,
                    text + byte_len(item.name@) + byte_len(item.accessibility_label@) + opt_bytes(
                        item.description,
                    ),
                    budget + 1024 + 6 * (byte_len(item.name@) + (MAX_TEXT_BYTES as nat)),
                ) {
                    Err(m) => Err(m),
                    Ok((defaults, t, b)) => if !item.multiple && defaults > 1 {
                        Err(single_choice_message(item.name@))
                    } else {
                        match input {
                            Some(inp) => match input_props_check(inp) {
                                Some(m) => Err(m),
                                None => items_scan(
                                    items,
                                    i + 1,
                                    t + byte_len(inp.accessibility_label@) + opt_bytes(
                                        inp.placeholder,
                                    ) + opt_bytes(inp.default_value),
                                    b + 6 * (MAX_INPUT_TEXT_BYTES as nat),
                                ),
                            },
                            None => items_scan(items, i + 1, t, b),
                        }
                    },
                }
            }
        }
    }
}

/// The schema rules: at most 256 questions, each valid with unique name,
/// at most 128 unique valid choices and at most one default selection unless
/// it is a multiple-choice question; all text at most 512 KiB; and the
/// serialized response reserve (escaping, structure, external errors and the
/// full capacity of every input) within the 1 MiB native-call budget.
pub open spec fn shape_check(items: Seq<QuestionShape>) -> Option<Seq<char>> {
    if items.len() > MAX_ITEMS {
        Some("a questionnaire supports at most 256 questions"@)
    } else {
        match items_scan(items, 0, 0, 1024) {
            Err(m) => Some(m),
            Ok((text, budget)) => if text > MAX_SCHEMA_TEXT_BYTES {
                Some("questionnaire text may total at most 524288 bytes"@)
            } else if budget > MAX_NATIVE_CALL_BYTES {
                Some("questionnaire state exceeds the 1 MiB response budget"@)
            } else {
                None
            },
        }
    }
}

/// The exact UTF-8 length of a string known to be short.
fn short_byte_len(s: &String, limit: usize) -> (r: usize)
    requires
        byte_len(s@) <= limit,
        limit < usize::MAX,
    ensures
        r == byte_len(s@),
{
    let v = chars_of(s.as_str());
    bounded_byte_len(&v, limit)
}

fn short_opt_byte_len(s: &Option<String>, limit: usize) -> (r: usize)
    requires
        opt_bytes(*s) <= limit,
        limit < usize::MAX,
    ensures
        r == opt_bytes(*s),
{
    match s {
        Some(v) => short_byte_len(v, limit),
        None => 0,
    }
}

fn choice_value_taken(choices: &Vec<QuestionnaireChoiceProps>, j: usize) -> (r: bool)
    requires
        j < choices@.len(),
    ensures
        r == value_taken(choices@, j as int, choices@[j as int].value@),
{
    let mut k: usize = 0;
    while k < j
        invariant
            k <= j < choices@.len(),
            forall|m: int| 0 <= m < k ==> (#[trigger] choices@[m]).value@ != choices@[j as int].value@,
        decreases j - k,
    {
        if same_text(choices[k].value.as_str(), choices[j].value.as_str()) {
            return true;
        }
        k = k + 1;
    }
    false
}

fn item_name_taken(items: &[QuestionShape], i: usize) -> (r: bool)
    requires
        i < items@.len(),
    ensures
        r == name_taken(items@, i as int, items@[i as int].0.name@),
{
    let mut k: usize = 0;
    while k < i
        invariant
            k <= i < items@.len(),
            forall|m: int| 0 <= m < k ==> (#[trigger] items@[m]).0.name@ != items@[i as int].0.name@,
        decreases i - k,
    {
        if same_text(items[k].0.name.as_str(), items[i].0.name.as_str()) {
            return true;
        }
        k = k + 1;
    }
    false
}

fn duplicate_choice_error(value: &String, name: &String) -> (r: String)
    ensures
        r@ == duplicate_choice_message(value@, name@),
{
    let mut out = owned("duplicate choice value `");
    out.append(value.as_str());
    out.append("` in question `");
    out.append(name.as_str());
    out.append("`");
    out
}

/// Per-item text bound: name, label and description, 128 choices with the
/// same, and the input's label, placeholder and seed.
pub open spec fn item_text_bound() -> nat {
    8448 + 128 * 8448 + 16384
}

/// Per-item response reserve bound.
pub open spec fn item_budget_bound() -> nat {
    27136 + 128 * 3328 + 49152
}

/// Checks the schema rules of a whole questionnaire before publication.
pub fn question_shape_errors(items: &[QuestionShape]) -> (r: Result<(), String>)
    ensures
        outcome(r) == shape_check(items@),
{
    if items.len() > MAX_ITEMS {
        return Err(owned("a questionnaire supports at most 256 questions"));
    }
    let mut text_bytes: usize = 0;
    let mut response_budget: usize = 1024;
    let mut i: usize = 0;
    while i < items.len()
        invariant
            i <= items@.len() <= MAX_ITEMS,
            text_bytes <= i * item_text_bound(),
            response_budget <= 1024 + i * item_budget_bound(),
            items_scan(items@, 0, 0, 1024) == items_scan(
                items@,
                i as int,
                text_bytes as nat,
                response_budget as nat,
            ),
        decreases items@.len() - i,
    {
        let item = &items[i].0;
        let choices = &items[i].1;
        let input = &items[i].2;
        item.validate()?;
        if item_name_taken(items, i) {
            return Err(join3("duplicate question name `", item.name.as_str(), "`"));
        }
        assert(name_check(item.name@) is None);
        assert(text_check("accessibilityLabel"@, item.accessibility_label@) is None);
        assert(optional_field_check("description"@, opt_text(item.description)) is None);
        assert(opt_bytes(item.description) <= MAX_TEXT_BYTES);
        assert(text_bytes <= 255 * 1106176) by (nonlinear_arith)
            requires
                text_bytes <= i * item_text_bound(),
                i <= 255,
                item_text_bound() == 1106176,
        ;
        assert(response_budget <= 1024 + 255 * 502272) by (nonlinear_arith)
            requires
                response_budget <= 1024 + i * item_budget_bound(),
                i <= 255,
                item_budget_bound() == 502272,
        ;
        let name_len = short_byte_len(&item.name, MAX_NAME_BYTES);
        let label_len = short_byte_len(&item.accessibility_label, MAX_TEXT_BYTES);
        let desc_len = short_opt_byte_len(&item.description, MAX_TEXT_BYTES);
        let mut text = text_bytes + name_len + label_len + desc_len;
        let mut budget = response_budget + 1024 + 6 * (name_len + MAX_TEXT_BYTES);
        if choices.len() > MAX_CHOICES_PER_ITEM {
            return Err(owned("a question supports at most 128 choices"));
        }
        let ghost base_text = text;
        let ghost base_budget = budget;
        assert(i * item_text_bound() + 8448 <= 255 * item_text_bound() + 8448) by (nonlinear_arith)
            requires
                i < 256,
        ;
        let mut defaults: usize = 0;
        let mut j: usize = 0;
        while j < choices.len()
            invariant
                j <= choices@.len() <= MAX_CHOICES_PER_ITEM,
                defaults <= j,
                text <= base_text + j * 8448,
                budget <= base_budget + j * 3328,
                base_text <= i * item_text_bound() + 8448,
                base_budget <= 1024 + i * item_budget_bound() + 27136,
                base_text <= 255 * 1106176 + 8448,
                base_budget <= 1024 + 255 * 502272 + 27136,
                i < items@.len() <= MAX_ITEMS,
                *item == items@[i as int].0,
                *choices == items@[i as int].1,
                *input == items@[i as int].2,
                item_props_check(*item) is None,
                !name_taken(items@, i as int, item.name@),
                base_text == text_bytes + byte_len(item.name@) + byte_len(item.accessibility_label@)
                    + opt_bytes(item.description),
                base_budget == response_budget + 1024 + 6 * (byte_len(item.name@) + MAX_TEXT_BYTES),
                items_scan(items@, 0, 0, 1024) == items_scan(
                    items@,
                    i as int,
                    text_bytes as nat,
                    response_budget as nat,
                ),
                choices_scan(item.name@, choices@, 0, 0, base_text as nat, base_budget as nat)
                    == choices_scan(
                    item.name@,
                    choices@,
                    j as int,
                    defaults as nat,
                    text as nat,
                    budget as nat,
                ),
            decreases choices@.len() - j,
        {
            let choice = &choices[j];
            choice.validate()?;
            if choice_value_taken(choices, j) {
                return Err(duplicate_choice_error(&choice.value, &item.name));
            }
            assert(name_check(choice.value@) is None);
            assert(text_check("accessibilityLabel"@, choice.accessibility_label@) is None);
            assert(optional_field_check("description"@, opt_text(choice.description)) is None);
            assert(text <= base_text + 127 * 8448 && budget <= base_budget + 127 * 3328) by (nonlinear_arith)
                requires
                    text <= base_text + j * 8448,
                    budget <= base_budget + j * 3328,
                    j <= 127,
            ;
            let value_len = short_byte_len(&choice.value, MAX_NAME_BYTES);
            let clabel_len = short_byte_len(&choice.accessibility_label, MAX_TEXT_BYTES);
            let cdesc_len = short_opt_byte_len(&choice.description, MAX_TEXT_BYTES);
            text = text + value_len + clabel_len + cdesc_len;
            budget = budget + 256 + 12 * value_len;
            if choice.default_selected {
                defaults = defaults + 1;
            }
            j = j + 1;
        }
        if !item.multiple && defaults > 1 {
            return Err(join3(
                "single-choice question `",
                item.name.as_str(),
                "` has more than one defaultSelected",
            ));
        }
        if let Some(inp) = input {
            inp.validate()?;
            let ilabel_len = short_byte_len(&inp.accessibility_label, MAX_TEXT_BYTES);
            let place_len = short_opt_byte_len(&inp.placeholder, MAX_TEXT_BYTES);
            let seed_len = short_opt_byte_len(&inp.default_value, MAX_INPUT_TEXT_BYTES);
            text = text + ilabel_len + place_len + seed_len;
            budget = budget + 6 * MAX_INPUT_TEXT_BYTES;
        }
        assert(text <= (i + 1) * item_text_bound() && budget <= 1024 + (i + 1) * item_budget_bound()) by (nonlinear_arith)
            requires
                text <= i * item_text_bound() + 8448 + 128 * 8448 + 16384,
                budget <= 1024 + i * item_budget_bound() + 27136 + 128 * 3328 + 49152,
                item_text_bound() == 1106176,
                item_budget_bound() == 502272,
        ;
        text_bytes = text;
        response_budget = budget;
        i = i + 1;
    }
    if text_bytes > MAX_SCHEMA_TEXT_BYTES {
        return Err(owned("questionnaire text may total at most 524288 bytes"));
    }
    if response_budget > MAX_NATIVE_CALL_BYTES {
        return Err(owned("questionnaire state exceeds the 1 MiB response budget"));
    }
    Ok(())
}

/// The per-question rules alone: valid choices with unique values, at most
/// one default selection for a single-choice question.
pub open spec fn choice_rules_scan(
    name: Seq<char>,
    choices: Seq<QuestionnaireChoiceProps>,
    j: int,
    defaults: nat,
) -> Result<nat, Seq<char>>
    decreases choices.len() - j,
{
    if j < 0 || j >= choices.len() {
        Ok(defaults)
    } else {
        let c = choices[j];
        match choice_props_check(c) {
            Some(m) => Err(m),
            None => if value_taken(choices, j, c.value@) {
                Err(duplicate_choice_message(c.value@, name))
            } else {
                choice_rules_scan(
                    name,
                    choices,
                    j + 1,
                    defaults + (if c.default_selected {
                        1nat
                    } else {
                        0nat
                    }),
                )
            },
        }
    }
}

pub open spec fn item_shape_check(
    item: QuestionnaireItemProps,
    choices: Seq<QuestionnaireChoiceProps>,
    input: Option<QuestionnaireInputProps>,
) -> Option<Seq<char>> {
    match item_props_check(item) {
        Some(m) => Some(m),
        None => match choice_rules_scan(item.name@, choices, 0, 0) {
            Err(m) => Some(m),
            Ok(defaults) => if !item.multiple && defaults > 1 {
                Some(single_choice_message(item.name@))
            } else {
                match input {
                    Some(i) => input_props_check(i),
                    None => None,
                }
            },
        },
    }
}

pub open spec fn deref_choices(choices: Seq<&QuestionnaireChoiceProps>) -> Seq<
    QuestionnaireChoiceProps,
> {
    choices.map_values(|c: &QuestionnaireChoiceProps| *c)
}

pub open spec fn deref_input(input: Option<&QuestionnaireInputProps>) -> Option<
    QuestionnaireInputProps,
> {
    match input {
        Some(i) => Some(*i),
        None => None,
    }
}

fn ref_value_taken(choices: &[&QuestionnaireChoiceProps], j: usize) -> (r: bool)
    requires
        j < choices@.len(),
    ensures
        r == value_taken(deref_choices(choices@), j as int, choices@[j as int].value@),
{
    let mut k: usize = 0;
    while k < j
        invariant
            k <= j < choices@.len(),
            forall|m: int| 0 <= m < k ==> (#[trigger] choices@[m]).value@ != choices@[j as int].value@,
        decreases j - k,
    {
        if same_text(choices[k].value.as_str(), choices[j].value.as_str()) {
            assert(deref_choices(choices@)[k as int] == *choices@[k as int]);
            return true;
        }
        k = k + 1;
    }
    proof {
        assert forall|m: int| 0 <= m < j implies (#[trigger] deref_choices(choices@)[m]).value@
            != choices@[j as int].value@ by {
            assert(deref_choices(choices@)[m] == *choices@[m]);
        }
    }
    false
}

/// Per-question rules over borrowed choices, for one question's own
/// publication validation.
pub fn validate_item_shape(
    item: &QuestionnaireItemProps,
    choices: &[&QuestionnaireChoiceProps],
    input: Option<&QuestionnaireInputProps>,
) -> (r: Result<(), String>)
    ensures
        outcome(r) == item_shape_check(*item, deref_choices(choices@), deref_input(input)),
{
    item.validate()?;
    let ghost cs = deref_choices(choices@);
    let mut defaults: usize = 0;
    let mut j: usize = 0;
    while j < choices.len()
        invariant
            cs == deref_choices(choices@),
            item_props_check(*item) is None,
            j <= choices@.len(),
            defaults <= j,
            choice_rules_scan(item.name@, cs, 0, 0) == choice_rules_scan(
                item.name@,
                cs,
                j as int,
                defaults as nat,
            ),
        decreases choices@.len() - j,
    {
        let choice = choices[j];
        assert(cs[j as int] == *choice);
        choice.validate()?;
        if ref_value_taken(choices, j) {
            return Err(duplicate_choice_error(&choice.value, &item.name));
        }
        if choice.default_selected {
            defaults = defaults + 1;
        }
        j = j + 1;
    }
    if !item.multiple && defaults > 1 {
        return Err(join3(
            "single-choice question `",
            item.name.as_str(),
            "` has more than one defaultSelected",
        ));
    }
    if let Some(inp) = input {
        inp.validate()?;
    }
    Ok(())
}

/// What one committed question's shape means for keyed answer preservation.
pub struct QuestionnaireItemShape<'a> {
    props: &'a QuestionnaireItemProps,
    choices: Vec<&'a QuestionnaireChoiceProps>,
    input: Option<&'a QuestionnaireInputProps>,
}

/// A shape as plain values: the toggles, the choice values in order, and
/// whether a freeform input exists.
pub struct ShapeView {
    pub required: bool,
    pub multiple: bool,
    pub values: Seq<Seq<char>>,
    pub has_input: bool,
}

/// Answers port across a schema edit only when the answer's meaning is
/// unchanged: same toggles and same choice values, in the same order, and
/// the same presence of a freeform input.
pub open spec fn shapes_compatible(a: ShapeView, b: ShapeView) -> bool {
    &&& a.required == b.required
    &&& a.multiple == b.multiple
    &&& a.values == b.values
    &&& a.has_input == b.has_input
}

impl<'a> QuestionnaireItemShape<'a> {
    pub closed spec fn shape(&self) -> ShapeView {
        ShapeView {
            required: self.props.required,
            multiple: self.props.multiple,
            values: self.choices@.map_values(|c: &QuestionnaireChoiceProps| c.value@),
            has_input: self.input is Some,
        }
    }

    pub fn new(
        props: &'a QuestionnaireItemProps,
        choices: Vec<&'a QuestionnaireChoiceProps>,
        input: Option<&'a QuestionnaireInputProps>,
    ) -> (r: QuestionnaireItemShape<'a>)
        ensures
            r.shape() == (ShapeView {
                required: props.required,
                multiple: props.multiple,
                values: choices@.map_values(|c: &QuestionnaireChoiceProps| c.value@),
                has_input: input is Some,
            }),
            r.name() == props.name@,
    {
        QuestionnaireItemShape { props, choices, input }
    }

    /// Whether an answer to `self` keeps its meaning for `other`.
    /// Accessibility text, descriptions, per-choice default selection and
    /// disabled flags may change freely.
    pub fn answer_compatible(&self, other: &QuestionnaireItemShape<'_>) -> (r: bool)
        ensures
            r == shapes_compatible(self.shape(), other.shape()),
    {
        if self.props.required != other.props.required || self.props.multiple
            != other.props.multiple || self.choices.len() != other.choices.len() {
            assert(self.shape().values.len() == self.choices@.len());
            assert(other.shape().values.len() == other.choices@.len());
            return false;
        }
        let ghost a = self.shape().values;
        let ghost b = other.shape().values;
        let mut k: usize = 0;
        while k < self.choices.len()
            invariant
                a == self.choices@.map_values(|c: &QuestionnaireChoiceProps| c.value@),
                b == other.choices@.map_values(|c: &QuestionnaireChoiceProps| c.value@),
                self.choices@.len() == other.choices@.len(),
                k <= self.choices@.len(),
                forall|m: int| 0 <= m < k ==> a[m] == b[m],
            decreases self.choices@.len() - k,
        {
            if !same_text(self.choices[k].value.as_str(), other.choices[k].value.as_str()) {
                assert(a[k as int] != b[k as int]);
                return false;
            }
            k = k + 1;
        }
        assert(a =~= b);
        self.input.is_some() == other.input.is_some()
    }
}

impl<'a> QuestionnaireItemShape<'a> {
    /// The question's name.
    pub closed spec fn name(&self) -> Seq<char> {
        self.props.name@
    }

    /// Whether two shapes belong to questions of the same name.
    pub fn same_name(&self, other: &QuestionnaireItemShape<'_>) -> (r: bool)
        ensures
            r == (self.name() == other.name()),
    {
        same_text(self.props.name.as_str(), other.props.name.as_str())
    }
}

/// `j` is the first question of `shapes` named `name`.
pub open spec fn first_named(shapes: Seq<QuestionnaireItemShape>, name: Seq<char>, j: int) -> bool {
    &&& 0 <= j < shapes.len()
    &&& shapes[j].name() == name
    &&& forall|i: int| 0 <= i < j ==> (#[trigger] shapes[i]).name() != name
}

/// Whether the answer to question `k` of `old` moves to the schema `new`:
/// the first question of `new` with its name has a compatible shape.
pub open spec fn answer_ports(
    old: Seq<QuestionnaireItemShape>,
    new: Seq<QuestionnaireItemShape>,
    k: int,
) -> bool {
    exists|j: int| first_named(new, old[k].name(), j) && shapes_compatible(
        old[k].shape(),
        #[trigger] new[j].shape(),
    )
}

/// The first question of `shapes` named like `question`.
fn position_named(
    shapes: &Vec<QuestionnaireItemShape>,
    question: &QuestionnaireItemShape,
) -> (r: Option<usize>)
    ensures
        match r {
            Some(j) => first_named(shapes@, question.name(), j as int),
            None => forall|i: int| 0 <= i < shapes@.len() ==> (#[trigger] shapes@[i]).name()
                != question.name(),
        },
{
    let mut j: usize = 0;
    while j < shapes.len()
        invariant
            j <= shapes@.len(),
            forall|i: int| 0 <= i < j ==> (#[trigger] shapes@[i]).name() != question.name(),
        decreases shapes@.len() - j,
    {
        if shapes[j].same_name(question) {
            return Some(j);
        }
        j = j + 1;
    }
    None
}

/// For each question of the previous schema, whether its answer moves to
/// the schema `new` that replaces it.
pub fn answers_to_port(
    old: &Vec<QuestionnaireItemShape>,
    new: &Vec<QuestionnaireItemShape>,
) -> (r: Vec<bool>)
    ensures
        r@.len() == old@.len(),
        forall|k: int| 0 <= k < old@.len() ==> #[trigger] r@[k] == answer_ports(old@, new@, k),
{
    let mut r: Vec<bool> = Vec::new();
    let mut k: usize = 0;
    while k < old.len()
        invariant
            k <= old@.len(),
            r@.len() == k,
            forall|i: int| 0 <= i < k ==> #[trigger] r@[i] == answer_ports(old@, new@, i),
        decreases old@.len() - k,
    {
        let ports = match position_named(new, &old[k]) {
            Some(j) => {
                let c = old[k].answer_compatible(&new[j]);
                proof {
                    if answer_ports(old@, new@, k as int) {
                        let w = choose|w: int| first_named(new@, old@[k as int].name(), w)
                            && shapes_compatible(old@[k as int].shape(), #[trigger] new@[w].shape());
                        if w < j {
                            assert(new@[w].name() != old@[k as int].name());
                        } else if w > j {
                            assert(new@[j as int].name() != old@[k as int].name());
                        }
                    }
                    if c {
                        assert(first_named(new@, old@[k as int].name(), j as int));
                    }
                }
                c
            },
            None => {
                proof {
                    if answer_ports(old@, new@, k as int) {
                        let w = choose|w: int| first_named(new@, old@[k as int].name(), w)
                            && shapes_compatible(old@[k as int].shape(), #[trigger] new@[w].shape());
                        assert(new@[w].name() == old@[k as int].name());
                    }
                }
                false
            },
        };
        r.push(ports);
        k = k + 1;
    }
    r
}

/// Answer compatibility is an equivalence: every shape is compatible with
/// itself, and compatibility is symmetric and transitive, so answers port
/// consistently across any chain of meaning-preserving edits.
pub proof fn law_answer_compatibility_is_equivalence(a: ShapeView, b: ShapeView, c: ShapeView)
    ensures
        shapes_compatible(a, a),
        shapes_compatible(a, b) ==> shapes_compatible(b, a),
        shapes_compatible(a, b) && shapes_compatible(b, c) ==> shapes_compatible(a, c),
{
}

proof fn lemma_choice_scan_accepts(
    name: Seq<char>,
    choices: Seq<QuestionnaireChoiceProps>,
    j: int,
    defaults: nat,
    text: nat,
    budget: nat,
)
    requires
        0 <= j <= choices.len(),
        choices_scan(name, choices, j, defaults, text, budget) is Ok,
    ensures
        forall|k: int|
            j <= k < choices.len() ==> !value_taken(choices, k, (#[trigger] choices[k]).value@)
                && choice_props_check(choices[k]) is None,
        ({
            let d = choices_scan(name, choices, j, defaults, text, budget)->Ok_0.0;
            d >= defaults && d - defaults == choices.subrange(j, choices.len() as int).filter(
                |c: QuestionnaireChoiceProps| c.default_selected,
            ).len()
        }),
    decreases choices.len() - j,
{
    let p = |c: QuestionnaireChoiceProps| c.default_selected;
    if j < choices.len() {
        let c = choices[j];
        lemma_choice_scan_accepts(
            name,
            choices,
            j + 1,
            defaults + (if c.default_selected {
                1nat
            } else {
                0nat
            }),
            text + byte_len(c.value@) + byte_len(c.accessibility_label@) + opt_bytes(c.description),
            budget + 256 + 12 * byte_len(c.value@),
        );
        let rest = choices.subrange(j + 1, choices.len() as int);
        let all = choices.subrange(j, choices.len() as int);
        assert(all =~= seq![c] + rest);
        Seq::filter_distributes_over_add(seq![c], rest, p);
        reveal(Seq::filter);
        assert(seq![c].drop_last() =~= Seq::<QuestionnaireChoiceProps>::empty());
        assert(Seq::<QuestionnaireChoiceProps>::empty().filter(p) =~= Seq::<QuestionnaireChoiceProps>::empty());
    } else {
        assert(choices.subrange(j, choices.len() as int) =~= Seq::<QuestionnaireChoiceProps>::empty());
        reveal(Seq::filter);
    }
}

proof fn lemma_items_scan_accepts(items: Seq<QuestionShape>, i: int, text: nat, budget: nat)
    requires
        0 <= i <= items.len(),
        items_scan(items, i, text, budget) is Ok,
    ensures
        forall|k: int|
            i <= k < items.len() ==> {
                &&& !name_taken(items, k, (#[trigger] items[k]).0.name@)
                &&& item_props_check(items[k].0) is None
                &&& items[k].1@.len() <= MAX_CHOICES_PER_ITEM
                &&& forall|m: int|
                    0 <= m < items[k].1@.len() ==> !value_taken(
                        items[k].1@,
                        m,
                        (#[trigger] items[k].1@[m]).value@,
                    )
                &&& !items[k].0.multiple ==> items[k].1@.filter(
                    |c: QuestionnaireChoiceProps| c.default_selected,
                ).len() <= 1
            },
    decreases items.len() - i,
{
    if i < items.len() {
        let item = items[i].0;
        let choices = items[i].1@;
        let t0 = text + byte_len(item.name@) + byte_len(item.accessibility_label@) + opt_bytes(
            item.description,
        );
        let b0 = budget + 1024 + 6 * (byte_len(item.name@) + (MAX_TEXT_BYTES as nat));
        lemma_choice_scan_accepts(item.name@, choices, 0, 0, t0, b0);
        assert(choices.subrange(0, choices.len() as int) =~= choices);
        let (d, t, b) = choices_scan(item.name@, choices, 0, 0, t0, b0)->Ok_0;
        match items[i].2 {
            Some(inp) => {
                lemma_items_scan_accepts(
                    items,
                    i + 1,
                    t + byte_len(inp.accessibility_label@) + opt_bytes(inp.placeholder) + opt_bytes(
                        inp.default_value,
                    ),
                    b + 6 * (MAX_INPUT_TEXT_BYTES as nat),
                );
            },
            None => {
                lemma_items_scan_accepts(items, i + 1, t, b);
            },
        }
    }
}

/// A schema that passes the rules has unique question names, valid
/// questions, at most 128 choices per question with unique values, and at
/// most one default selection in every single-choice question.
pub proof fn law_accepted_schema_is_unambiguous(items: Seq<QuestionShape>)
    requires
        shape_check(items) is None,
    ensures
        items.len() <= MAX_ITEMS,
        forall|k: int|
            0 <= k < items.len() ==> {
                &&& !name_taken(items, k, (#[trigger] items[k]).0.name@)
                &&& item_props_check(items[k].0) is None
                &&& items[k].1@.len() <= MAX_CHOICES_PER_ITEM
                &&& forall|m: int|
                    0 <= m < items[k].1@.len() ==> !value_taken(
                        items[k].1@,
                        m,
                        (#[trigger] items[k].1@[m]).value@,
                    )
                &&& !items[k].0.multiple ==> items[k].1@.filter(
                    |c: QuestionnaireChoiceProps| c.default_selected,
                ).len() <= 1
            },
{
    lemma_items_scan_accepts(items, 0, 0, 1024);
}

/// A decoded child of a question: a choice or the freeform input.
#[derive(Debug)]
pub enum ItemChildProps {
    Choice(QuestionnaireChoiceProps),
    Input(QuestionnaireInputProps),
}

/// The choices among decoded children, in order.
pub open spec fn choices_of(children: Seq<ItemChildProps>) -> Seq<QuestionnaireChoiceProps>
    decreases children.len(),
{
    if children.len() == 0 {
        Seq::empty()
    } else {
        let earlier = choices_of(children.drop_last());
        match children.last() {
            ItemChildProps::Choice(c) => earlier.push(c),
            ItemChildProps::Input(_) => earlier,
        }
    }
}

/// The inputs among decoded children, in order.
pub open spec fn inputs_of(children: Seq<ItemChildProps>) -> Seq<QuestionnaireInputProps>
    decreases children.len(),
{
    if children.len() == 0 {
        Seq::empty()
    } else {
        let earlier = inputs_of(children.drop_last());
        match children.last() {
            ItemChildProps::Input(i) => earlier.push(i),
            ItemChildProps::Choice(_) => earlier,
        }
    }
}

/// The first problem among the decode results of a question's children:
/// a child that did not decode, or a second freeform input.
pub open spec fn children_problem(results: Seq<Result<ItemChildProps, String>>) -> Option<Seq<char>>
    decreases results.len(),
{
    if results.len() == 0 {
        None
    } else {
        match children_problem(results.drop_last()) {
            Some(m) => Some(m),
            None => match results.last() {
                Err(m) => Some(m@),
                Ok(ItemChildProps::Input(_)) => if inputs_of(decoded(results.drop_last())).len() > 0 {
                    Some("QuestionnaireItem accepts at most one QuestionnaireInput"@)
                } else {
                    None
                },
                Ok(ItemChildProps::Choice(_)) => None,
            },
        }
    }
}

/// The children that decoded.
pub open spec fn decoded(results: Seq<Result<ItemChildProps, String>>) -> Seq<ItemChildProps>
    decreases results.len(),
{
    if results.len() == 0 {
        Seq::empty()
    } else {
        match results.last() {
            Ok(c) => decoded(results.drop_last()).push(c),
            Err(_) => decoded(results.drop_last()),
        }
    }
}

proof fn lemma_children_problem_persists(r: Seq<Result<ItemChildProps, String>>, k: int)
    requires
        0 <= k <= r.len(),
        children_problem(r.take(k)) is Some,
    ensures
        children_problem(r) == children_problem(r.take(k)),
    decreases r.len() - k,
{
    if k < r.len() {
        assert(r.take(k + 1).drop_last() =~= r.take(k));
        lemma_children_problem_persists(r, k + 1);
    } else {
        assert(r.take(k) =~= r);
    }
}

/// Splits a question's children into its choices and its freeform input.
/// Every child must be one of the two kinds (`all_item_children`); the
/// children are read in order, the first that did not decode or a second
/// input ends the split; at most 128 choices are accepted.
pub fn decode_item_children(
    all_item_children: bool,
    children: Vec<Result<ItemChildProps, String>>,
) -> (r: Result<(Vec<QuestionnaireChoiceProps>, Option<QuestionnaireInputProps>), String>)
    ensures
        ({
            let ok = decoded(children@);
            match r {
                Err(m) => if !all_item_children {
                    m@ == "QuestionnaireItem requires QuestionnaireChoice and QuestionnaireInput children"@
                } else {
                    match children_problem(children@) {
                        Some(p) => m@ == p,
                        None => choices_of(ok).len() > MAX_CHOICES_PER_ITEM
                            && m@ == "a question supports at most 128 choices"@,
                    }
                },
                Ok((choices, input)) => all_item_children && children_problem(children@) is None
                    && choices@ == choices_of(ok) && choices@.len() <= MAX_CHOICES_PER_ITEM
                    && inputs_of(ok).len() <= 1
                    && input == (if inputs_of(ok).len() == 1 {
                        Some(inputs_of(ok)[0])
                    } else {
                        None
                    }),
            }
        }),
{
    if !all_item_children {
        return Err(owned("QuestionnaireItem requires QuestionnaireChoice and QuestionnaireInput children"));
    }
    let ghost all = children@;
    let mut choices: Vec<QuestionnaireChoiceProps> = Vec::new();
    let mut input: Option<QuestionnaireInputProps> = None;
    let total = children.len();
    let mut rest = children;
    let mut i: usize = 0;
    proof {
        assert(all.skip(0) =~= all);
    }
    while rest.len() > 0
        invariant
            all_item_children,
            all == children@,
            i + rest@.len() == all.len(),
            all.len() == total,
            rest@ == all.skip(i as int),
            children_problem(all.take(i as int)) is None,
            choices@ == choices_of(decoded(all.take(i as int))),
            inputs_of(decoded(all.take(i as int))).len() <= 1,
            input == (if inputs_of(decoded(all.take(i as int))).len() == 1 {
                Some(inputs_of(decoded(all.take(i as int)))[0])
            } else {
                None
            }),
        decreases rest@.len(),
    {
        let next = rest.remove(0);
        proof {
            assert(all.skip(i as int)[0] == next);
            assert(rest@ =~= all.skip(i as int + 1));
            assert(all.take(i as int + 1).drop_last() =~= all.take(i as int));
            assert(all.take(i as int + 1).last() == next);
        }
        match next {
            Err(m) => {
                proof {
                    lemma_children_problem_persists(all, i as int + 1);
                }
                return Err(m);
            },
            Ok(ItemChildProps::Choice(c)) => {
                proof {
                    let d = decoded(all.take(i as int));
                    let e = ItemChildProps::Choice(c);
                    assert(decoded(all.take(i as int + 1)) == d.push(e));
                    assert(d.push(e).drop_last() =~= d);
                    assert(choices_of(d.push(e)) == choices_of(d).push(c));
                    assert(inputs_of(d.push(e)) == inputs_of(d));
                }
                choices.push(c);
            },
            Ok(ItemChildProps::Input(inp)) => {
                if input.is_some() {
                    proof {
                        lemma_children_problem_persists(all, i as int + 1);
                    }
                    return Err(owned("QuestionnaireItem accepts at most one QuestionnaireInput"));
                }
                proof {
                    let d = decoded(all.take(i as int));
                    let e = ItemChildProps::Input(inp);
                    assert(decoded(all.take(i as int + 1)) == d.push(e));
                    assert(d.push(e).drop_last() =~= d);
                    assert(choices_of(d.push(e)) == choices_of(d));
                    assert(inputs_of(d.push(e)) == inputs_of(d).push(inp));
                    assert(inputs_of(d).len() == 0);
                    assert(inputs_of(d).push(inp)[0] == inp);
                }
                input = Some(inp);
            },
        }
        i = i + 1;
    }
    proof {
        assert(all.take(i as int) =~= all);
    }
    if choices.len() > MAX_CHOICES_PER_ITEM {
        return Err(owned("a question supports at most 128 choices"));
    }
    Ok((choices, input))
}

/// The names of committed questions.
pub open spec fn item_names(items: Seq<QuestionnaireItemProps>) -> Seq<Seq<char>> {
    items.map_values(|it: QuestionnaireItemProps| it.name@)
}

/// An `initial_item` must name one of the committed questions.
pub fn check_initial_item(
    items: &Vec<QuestionnaireItemProps>,
    initial_item: &Option<String>,
) -> (r: Result<(), String>)
    ensures
        match r {
            Ok(()) => initial_item matches Some(n) ==> item_names(items@).contains(n@),
            Err(m) => (initial_item matches Some(n) && !item_names(items@).contains(n@)) && m@
                == "initialItem must address a committed question"@,
        },
{
    if let Some(n) = initial_item {
        let mut i: usize = 0;
        while i < items.len()
            invariant
                i <= items@.len(),
                *initial_item == Some(*n),
                forall|j: int| 0 <= j < i ==> #[trigger] item_names(items@)[j] != n@,
            decreases items@.len() - i,
        {
            if same_text(items[i].name.as_str(), n.as_str()) {
                assert(item_names(items@).len() == items@.len());
                assert(item_names(items@)[i as int] == n@);
                assert(item_names(items@).contains(n@));
                return Ok(());
            }
            i = i + 1;
        }
        return Err(String::from_str("initialItem must address a committed question"));
    }
    Ok(())
}

} // verus!
