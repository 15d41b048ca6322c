//! How each supported type is written as text and read from it, and that
//! reading what was written gives the value back.
use vstd::prelude::*;
use crate::basic_types::{
    BTToString,
    FromText,
    NodeStatus,
    NodeType,
    ParseBoolError,
    ParseNodeStatusError,
    ParseNodeTypeError,
    ParsePortDirectionError,
    PortDirection,
    TextRoundTrip,
};
use crate::numbers::{
    ConversionError,
    integer_text,
    lemma_integer_round_trip,
    parse_integer,
    parse_signed,
    parse_unsigned,
    signed_to_text,
    unsigned_to_text,
};
use crate::text::{
    DELIMITER,
    has_char,
    join_fields,
    lemma_split_join,
    split_fields,
    split_text,
    text_eq,
};

verus! {

impl FromText for u8 {
    type Err = ConversionError;

    open spec fn parse_spec(text: Seq<char>) -> Result<u8, ConversionError> {
        match parse_integer(text, false, 0, u8::MAX as int) {
            Ok(n) => Ok(n as u8),
            Err(e) => Err(e),
        }
    }

    fn from_text(text: &str) -> (r: Result<u8, ConversionError>) {
        match parse_unsigned(text, u8::MAX as u128) {
            Ok(v) => Ok(v as u8),
            Err(e) => Err(e),
        }
    }
}

impl BTToString for u8 {
    open spec fn text(&self) -> Seq<char> {
        integer_text(*self as int)
    }

    fn bt_to_string(&self) -> (r: String) {
        unsigned_to_text(*self as u128)
    }
}

impl TextRoundTrip for u8 {
    proof fn lemma_round_trip(&self) {
        lemma_integer_round_trip(*self as int, false, 0, u8::MAX as int);
    }
}

impl FromText for u16 {
    type Err = ConversionError;

    open spec fn parse_spec(text: Seq<char>) -> Result<u16, ConversionError> {
        match parse_integer(text, false, 0, u16::MAX as int) {
            Ok(n) => Ok(n as u16),
            Err(e) => Err(e),
        }
    }

    fn from_text(text: &str) -> (r: Result<u16, ConversionError>) {
        match parse_unsigned(text, u16::MAX as u128) {
            Ok(v) => Ok(v as u16),
            Err(e) => Err(e),
        }
    }
}

impl BTToString for u16 {
    open spec fn text(&self) -> Seq<char> {
        integer_text(*self as int)
    }

    fn bt_to_string(&self) -> (r: String) {
        unsigned_to_text(*self as u128)
    }
}

impl TextRoundTrip for u16 {
    proof fn lemma_round_trip(&self) {
        lemma_integer_round_trip(*self as int, false, 0, u16::MAX as int);
    }
}

impl FromText for u32 {
    type Err = ConversionError;

    open spec fn parse_spec(text: Seq<char>) -> Result<u32, ConversionError> {
        match parse_integer(text, false, 0, u32::MAX as int) {
            Ok(n) => Ok(n as u32),
            Err(e) => Err(e),
        }
    }

    fn from_text(text: &str) -> (r: Result<u32, ConversionError>) {
        match parse_unsigned(text, u32::MAX as u128) {
            Ok(v) => Ok(v as u32),
            Err(e) => Err(e),
        }
    }
}

impl BTToString for u32 {
    open spec fn text(&self) -> Seq<char> {
        integer_text(*self as int)
    }

    fn bt_to_string(&self) -> (r: String) {
        unsigned_to_text(*self as u128)
    }
}

impl TextRoundTrip for u32 {
    proof fn lemma_round_trip(&self) {
        lemma_integer_round_trip(*self as int, false, 0, u32::MAX as int);
    }
}

impl FromText for u64 {
    type Err = ConversionError;

    open spec fn parse_spec(text: Seq<char>) -> Result<u64, ConversionError> {
        match parse_integer(text, false, 0, u64::MAX as int) {
            Ok(n) => Ok(n as u64),
            Err(e) => Err(e),
        }
    }

    fn from_text(text: &str) -> (r: Result<u64, ConversionError>) {
        match parse_unsigned(text, u64::MAX as u128) {
            Ok(v) => Ok(v as u64),
            Err(e) => Err(e),
        }
    }
}

impl BTToString for u64 {
    open spec fn text(&self) -> Seq<char> {
        integer_text(*self as int)
    }

    fn bt_to_string(&self) -> (r: String) {
        unsigned_to_text(*self as u128)
    }
}

impl TextRoundTrip for u64 {
    proof fn lemma_round_trip(&self) {
        lemma_integer_round_trip(*self as int, false, 0, u64::MAX as int);
    }
}

impl FromText for u128 {
    type Err = ConversionError;

    open spec fn parse_spec(text: Seq<char>) -> Result<u128, ConversionError> {
        match parse_integer(text, false, 0, u128::MAX as int) {
            Ok(n) => Ok(n as u128),
            Err(e) => Err(e),
        }
    }

    fn from_text(text: &str) -> (r: Result<u128, ConversionError>) {
        match parse_unsigned(text, u128::MAX as u128) {
            Ok(v) => Ok(v as u128),
            Err(e) => Err(e),
        }
    }
}

impl BTToString for u128 {
    open spec fn text(&self) -> Seq<char> {
        integer_text(*self as int)
    }

    fn bt_to_string(&self) -> (r: String) {
        unsigned_to_text(*self as u128)
    }
}

impl TextRoundTrip for u128 {
    proof fn lemma_round_trip(&self) {
        lemma_integer_round_trip(*self as int, false, 0, u128::MAX as int);
    }
}

impl FromText for usize {
    type Err = ConversionError;

    open spec fn parse_spec(text: Seq<char>) -> Result<usize, ConversionError> {
        match parse_integer(text, false, 0, usize::MAX as int) {
            Ok(n) => Ok(n as usize),
            Err(e) => Err(e),
        }
    }

    fn from_text(text: &str) -> (r: Result<usize, ConversionError>) {
        match parse_unsigned(text, usize::MAX as u128) {
            Ok(v) => Ok(v as usize),
            Err(e) => Err(e),
        }
    }
}

impl BTToString for usize {
    open spec fn text(&self) -> Seq<char> {
        integer_text(*self as int)
    }

    fn bt_to_string(&self) -> (r: String) {
        unsigned_to_text(*self as u128)
    }
}

impl TextRoundTrip for usize {
    proof fn lemma_round_trip(&self) {
        lemma_integer_round_trip(*self as int, false, 0, usize::MAX as int);
    }
}

impl FromText for i8 {
    type Err = ConversionError;

    open spec fn parse_spec(text: Seq<char>) -> Result<i8, ConversionError> {
        match parse_integer(text, true, i8::MIN as int, i8::MAX as int) {
            Ok(n) => Ok(n as i8),
            Err(e) => Err(e),
        }
    }

    fn from_text(text: &str) -> (r: Result<i8, ConversionError>) {
        match parse_signed(text, i8::MIN as i128, i8::MAX as i128) {
            Ok(v) => Ok(v as i8),
            Err(e) => Err(e),
        }
    }
}

impl BTToString for i8 {
    open spec fn text(&self) -> Seq<char> {
        integer_text(*self as int)
    }

    fn bt_to_string(&self) -> (r: String) {
        signed_to_text(*self as i128)
    }
}

impl TextRoundTrip for i8 {
    proof fn lemma_round_trip(&self) {
        lemma_integer_round_trip(*self as int, true, i8::MIN as int, i8::MAX as int);
    }
}

impl FromText for i16 {
    type Err = ConversionError;

    open spec fn parse_spec(text: Seq<char>) -> Result<i16, ConversionError> {
        match parse_integer(text, true, i16::MIN as int, i16::MAX as int) {
            Ok(n) => Ok(n as i16),
            Err(e) => Err(e),
        }
    }

    fn from_text(text: &str) -> (r: Result<i16, ConversionError>) {
        match parse_signed(text, i16::MIN as i128, i16::MAX as i128) {
            Ok(v) => Ok(v as i16),
            Err(e) => Err(e),
        }
    }
}

impl BTToString for i16 {
    open spec fn text(&self) -> Seq<char> {
        integer_text(*self as int)
    }

    fn bt_to_string(&self) -> (r: String) {
        signed_to_text(*self as i128)
    }
}

impl TextRoundTrip for i16 {
    proof fn lemma_round_trip(&self) {
        lemma_integer_round_trip(*self as int, true, i16::MIN as int, i16::MAX as int);
    }
}

impl FromText for i32 {
    type Err = ConversionError;

    open spec fn parse_spec(text: Seq<char>) -> Result<i32, ConversionError> {
        match parse_integer(text, true, i32::MIN as int, i32::MAX as int) {
            Ok(n) => Ok(n as i32),
            Err(e) => Err(e),
        }
    }

    fn from_text(text: &str) -> (r: Result<i32, ConversionError>) {
        match parse_signed(text, i32::MIN as i128, i32::MAX as i128) {
            Ok(v) => Ok(v as i32),
            Err(e) => Err(e),
        }
    }
}

impl BTToString for i32 {
    open spec fn text(&self) -> Seq<char> {
        integer_text(*self as int)
    }

    fn bt_to_string(&self) -> (r: String) {
        signed_to_text(*self as i128)
    }
}

impl TextRoundTrip for i32 {
    proof fn lemma_round_trip(&self) {
        lemma_integer_round_trip(*self as int, true, i32::MIN as int, i32::MAX as int);
    }
}

impl FromText for i64 {
    type Err = ConversionError;

    open spec fn parse_spec(text: Seq<char>) -> Result<i64, ConversionError> {
        match parse_integer(text, true, i64::MIN as int, i64::MAX as int) {
            Ok(n) => Ok(n as i64),
            Err(e) => Err(e),
        }
    }

    fn from_text(text: &str) -> (r: Result<i64, ConversionError>) {
        match parse_signed(text, i64::MIN as i128, i64::MAX as i128) {
            Ok(v) => Ok(v as i64),
            Err(e) => Err(e),
        }
    }
}

impl BTToString for i64 {
    open spec fn text(&self) -> Seq<char> {
        integer_text(*self as int)
    }

    fn bt_to_string(&self) -> (r: String) {
        signed_to_text(*self as i128)
    }
}

impl TextRoundTrip for i64 {
    proof fn lemma_round_trip(&self) {
        lemma_integer_round_trip(*self as int, true, i64::MIN as int, i64::MAX as int);
    }
}

impl FromText for i128 {
    type Err = ConversionError;

    open spec fn parse_spec(text: Seq<char>) -> Result<i128, ConversionError> {
        match parse_integer(text, true, i128::MIN as int, i128::MAX as int) {
            Ok(n) => Ok(n as i128),
            Err(e) => Err(e),
        }
    }

    fn from_text(text: &str) -> (r: Result<i128, ConversionError>) {
        match parse_signed(text, i128::MIN as i128, i128::MAX as i128) {
            Ok(v) => Ok(v as i128),
            Err(e) => Err(e),
        }
    }
}

impl BTToString for i128 {
    open spec fn text(&self) -> Seq<char> {
        integer_text(*self as int)
    }

    fn bt_to_string(&self) -> (r: String) {
        signed_to_text(*self as i128)
    }
}

impl TextRoundTrip for i128 {
    proof fn lemma_round_trip(&self) {
        lemma_integer_round_trip(*self as int, true, i128::MIN as int, i128::MAX as int);
    }
}

impl FromText for isize {
    type Err = ConversionError;

    open spec fn parse_spec(text: Seq<char>) -> Result<isize, ConversionError> {
        match parse_integer(text, true, isize::MIN as int, isize::MAX as int) {
            Ok(n) => Ok(n as isize),
            Err(e) => Err(e),
        }
    }

    fn from_text(text: &str) -> (r: Result<isize, ConversionError>) {
        match parse_signed(text, isize::MIN as i128, isize::MAX as i128) {
            Ok(v) => Ok(v as isize),
            Err(e) => Err(e),
        }
    }
}

impl BTToString for isize {
    open spec fn text(&self) -> Seq<char> {
        integer_text(*self as int)
    }

    fn bt_to_string(&self) -> (r: String) {
        signed_to_text(*self as i128)
    }
}

impl TextRoundTrip for isize {
    proof fn lemma_round_trip(&self) {
        lemma_integer_round_trip(*self as int, true, isize::MIN as int, isize::MAX as int);
    }
}

/// What a text denotes as a boolean: `1`, `true` and `TRUE` are true, `0`,
/// `false` and `FALSE` are false, and no other text is a boolean.
pub open spec fn parse_bool(text: Seq<char>) -> Result<bool, ParseBoolError> {
    if text == "1"@ || text == "true"@ || text == "TRUE"@ {
        Ok(true)
    } else if text == "0"@ || text == "false"@ || text == "FALSE"@ {
        Ok(false)
    } else {
        Err(ParseBoolError::ParseError)
    }
}

impl FromText for bool {
    type Err = ParseBoolError;

    open spec fn parse_spec(text: Seq<char>) -> Result<bool, ParseBoolError> {
        parse_bool(text)
    }

    fn from_text(text: &str) -> (r: Result<bool, ParseBoolError>) {
        if text_eq(text, "1") || text_eq(text, "true") || text_eq(text, "TRUE") {
            Ok(true)
        } else if text_eq(text, "0") || text_eq(text, "false") || text_eq(text, "FALSE") {
            Ok(false)
        } else {
            Err(ParseBoolError::ParseError)
        }
    }
}

impl BTToString for bool {
    open spec fn text(&self) -> Seq<char> {
        if *self {
            "true"@
        } else {
            "false"@
        }
    }

    fn bt_to_string(&self) -> (r: String) {
        if *self {
            "true".to_owned()
        } else {
            "false".to_owned()
        }
    }
}

impl TextRoundTrip for bool {
    proof fn lemma_round_trip(&self) {
        reveal_strlit("1");
        reveal_strlit("true");
        reveal_strlit("TRUE");
        reveal_strlit("false");
        assert("1"@.len() == 1 && "true"@.len() == 4 && "TRUE"@.len() == 4 && "false"@.len() == 5);
    }
}

/// A boolean is denoted by exactly six texts: no other text is read as one.
pub proof fn lemma_bool_literals(text: Seq<char>)
    ensures
        parse_bool(text) is Ok <==> (text == "1"@ || text == "0"@ || text == "true"@ || text
            == "false"@ || text == "TRUE"@ || text == "FALSE"@),
        parse_bool(text) is Err ==> parse_bool(text) == Err::<bool, ParseBoolError>(
            ParseBoolError::ParseError,
        ),
{
}

impl FromText for String {
    type Err = std::convert::Infallible;

    open spec fn parse_spec(text: Seq<char>) -> Result<Seq<char>, std::convert::Infallible> {
        Ok(text)
    }

    fn from_text(text: &str) -> (r: Result<String, std::convert::Infallible>) {
        Ok(text.to_owned())
    }
}

impl BTToString for String {
    open spec fn text(&self) -> Seq<char> {
        self@
    }

    fn bt_to_string(&self) -> (r: String) {
        self.clone()
    }
}

impl TextRoundTrip for String {
    proof fn lemma_round_trip(&self) {
    }
}

impl BTToString for &str {
    open spec fn text(&self) -> Seq<char> {
        self@
    }

    fn bt_to_string(&self) -> (r: String) {
        (*self).to_owned()
    }
}

impl NodeStatus {
    /// The name of the status, in capitals.
    pub open spec fn name(self) -> Seq<char> {
        match self {
            NodeStatus::Idle => "IDLE"@,
            NodeStatus::Running => "RUNNING"@,
            NodeStatus::Success => "SUCCESS"@,
            NodeStatus::Failure => "FAILURE"@,
            NodeStatus::Skipped => "SKIPPED"@,
        }
    }
}

impl FromText for NodeStatus {
    type Err = ParseNodeStatusError;

    /// Each status is denoted by its own name and by nothing else.
    open spec fn parse_spec(text: Seq<char>) -> Result<NodeStatus, ParseNodeStatusError> {
        if text == "IDLE"@ {
            Ok(NodeStatus::Idle)
        } else if text == "RUNNING"@ {
            Ok(NodeStatus::Running)
        } else if text == "SUCCESS"@ {
            Ok(NodeStatus::Success)
        } else if text == "FAILURE"@ {
            Ok(NodeStatus::Failure)
        } else if text == "SKIPPED"@ {
            Ok(NodeStatus::Skipped)
        } else {
            Err(ParseNodeStatusError::NoMatch)
        }
    }

    fn from_text(text: &str) -> (r: Result<NodeStatus, ParseNodeStatusError>) {
        if text_eq(text, "IDLE") {
            Ok(NodeStatus::Idle)
        } else if text_eq(text, "RUNNING") {
            Ok(NodeStatus::Running)
        } else if text_eq(text, "SUCCESS") {
            Ok(NodeStatus::Success)
        } else if text_eq(text, "FAILURE") {
            Ok(NodeStatus::Failure)
        } else if text_eq(text, "SKIPPED") {
            Ok(NodeStatus::Skipped)
        } else {
            Err(ParseNodeStatusError::NoMatch)
        }
    }
}

impl BTToString for NodeStatus {
    open spec fn text(&self) -> Seq<char> {
        self.name()
    }

    fn bt_to_string(&self) -> (r: String) {
        match self {
            NodeStatus::Idle => "IDLE".to_owned(),
            NodeStatus::Running => "RUNNING".to_owned(),
            NodeStatus::Success => "SUCCESS".to_owned(),
            NodeStatus::Failure => "FAILURE".to_owned(),
            NodeStatus::Skipped => "SKIPPED".to_owned(),
        }
    }
}

impl TextRoundTrip for NodeStatus {
    proof fn lemma_round_trip(&self) {
        reveal_strlit("IDLE");
        reveal_strlit("RUNNING");
        reveal_strlit("SUCCESS");
        reveal_strlit("FAILURE");
        reveal_strlit("SKIPPED");
        assert("IDLE"@.len() == 4 && "RUNNING"@[0] == 'R' && "SUCCESS"@[0] == 'S' && "SUCCESS"@[1]
            == 'U' && "FAILURE"@[0] == 'F' && "SKIPPED"@[0] == 'S' && "SKIPPED"@[1] == 'K');
    }
}

impl NodeType {
    /// The name of the category.
    pub open spec fn name(self) -> Seq<char> {
        match self {
            NodeType::Undefined => "Undefined"@,
            NodeType::Action => "Action"@,
            NodeType::Condition => "Condition"@,
            NodeType::Control => "Control"@,
            NodeType::Decorator => "Decorator"@,
            NodeType::SubTree => "SubTree"@,
        }
    }
}

impl FromText for NodeType {
    type Err = ParseNodeTypeError;

    open spec fn parse_spec(text: Seq<char>) -> Result<NodeType, ParseNodeTypeError> {
        if text == "Undefined"@ {
            Ok(NodeType::Undefined)
        } else if text == "Action"@ {
            Ok(NodeType::Action)
        } else if text == "Condition"@ {
            Ok(NodeType::Condition)
        } else if text == "Control"@ {
            Ok(NodeType::Control)
        } else if text == "Decorator"@ {
            Ok(NodeType::Decorator)
        } else if text == "SubTree"@ {
            Ok(NodeType::SubTree)
        } else {
            Err(ParseNodeTypeError::NoMatch)
        }
    }

    fn from_text(text: &str) -> (r: Result<NodeType, ParseNodeTypeError>) {
        if text_eq(text, "Undefined") {
            Ok(NodeType::Undefined)
        } else if text_eq(text, "Action") {
            Ok(NodeType::Action)
        } else if text_eq(text, "Condition") {
            Ok(NodeType::Condition)
        } else if text_eq(text, "Control") {
            Ok(NodeType::Control)
        } else if text_eq(text, "Decorator") {
            Ok(NodeType::Decorator)
        } else if text_eq(text, "SubTree") {
            Ok(NodeType::SubTree)
        } else {
            Err(ParseNodeTypeError::NoMatch)
        }
    }
}

impl BTToString for NodeType {
    open spec fn text(&self) -> Seq<char> {
        self.name()
    }

    fn bt_to_string(&self) -> (r: String) {
        match self {
            NodeType::Undefined => "Undefined".to_owned(),
            NodeType::Action => "Action".to_owned(),
            NodeType::Condition => "Condition".to_owned(),
            NodeType::Control => "Control".to_owned(),
            NodeType::Decorator => "Decorator".to_owned(),
            NodeType::SubTree => "SubTree".to_owned(),
        }
    }
}

impl TextRoundTrip for NodeType {
    proof fn lemma_round_trip(&self) {
        reveal_strlit("Undefined");
        reveal_strlit("Action");
        reveal_strlit("Condition");
        reveal_strlit("Control");
        reveal_strlit("Decorator");
        reveal_strlit("SubTree");
        assert("Undefined"@[0] == 'U' && "Action"@.len() == 6 && "Condition"@[0] == 'C'
            && "Control"@[0] == 'C' && "Control"@.len() == 7 && "Decorator"@[0] == 'D'
            && "Decorator"@.len() == 9 && "SubTree"@[0] == 'S' && "SubTree"@.len() == 7
            && "Condition"@.len() == 9 && "Undefined"@.len() == 9);
    }
}

impl PortDirection {
    /// The name of the direction.
    pub open spec fn name(self) -> Seq<char> {
        match self {
            PortDirection::Input => "Input"@,
            PortDirection::Output => "Output"@,
            PortDirection::InOut => "InOut"@,
        }
    }
}

impl FromText for PortDirection {
    type Err = ParsePortDirectionError;

    /// A direction is denoted by its name, and by its name in capitals.
    open spec fn parse_spec(text: Seq<char>) -> Result<PortDirection, ParsePortDirectionError> {
        if text == "Input"@ || text == "INPUT"@ {
            Ok(PortDirection::Input)
        } else if text == "Output"@ || text == "OUTPUT"@ {
            Ok(PortDirection::Output)
        } else if text == "InOut"@ || text == "INOUT"@ {
            Ok(PortDirection::InOut)
        } else {
            Err(ParsePortDirectionError::NoMatch)
        }
    }

    fn from_text(text: &str) -> (r: Result<PortDirection, ParsePortDirectionError>) {
        if text_eq(text, "Input") || text_eq(text, "INPUT") {
            Ok(PortDirection::Input)
        } else if text_eq(text, "Output") || text_eq(text, "OUTPUT") {
            Ok(PortDirection::Output)
        } else if text_eq(text, "InOut") || text_eq(text, "INOUT") {
            Ok(PortDirection::InOut)
        } else {
            Err(ParsePortDirectionError::NoMatch)
        }
    }
}

impl BTToString for PortDirection {
    open spec fn text(&self) -> Seq<char> {
        self.name()
    }

    fn bt_to_string(&self) -> (r: String) {
        match self {
            PortDirection::Input => "Input".to_owned(),
            PortDirection::Output => "Output".to_owned(),
            PortDirection::InOut => "InOut".to_owned(),
        }
    }
}

impl TextRoundTrip for PortDirection {
    proof fn lemma_round_trip(&self) {
        reveal_strlit("Input");
        reveal_strlit("INPUT");
        reveal_strlit("Output");
        reveal_strlit("OUTPUT");
        reveal_strlit("InOut");
        reveal_strlit("INOUT");
        assert("Input"@[2] == 'p' && "INPUT"@[1] == 'N' && "InOut"@[2] == 'O' && "InOut"@[1] == 'n'
            && "Output"@.len() == 6 && "OUTPUT"@.len() == 6 && "Input"@.len() == 5 && "INPUT"@.len()
            == 5 && "InOut"@.len() == 5);
    }
}

/// What a list of fields denotes as a sequence of `T`: what each field
/// denotes, or the error of the first field that denotes nothing.
pub open spec fn parse_fields<T: FromText>(fields: Seq<Seq<char>>) -> Result<Seq<T::V>, T::Err>
    decreases fields.len(),
{
    if fields.len() == 0 {
        Ok(Seq::empty())
    } else {
        match parse_fields::<T>(fields.drop_last()) {
            Err(e) => Err(e),
            Ok(front) => match T::parse_spec(fields.last()) {
                Err(e) => Err(e),
                Ok(v) => Ok(front.push(v)),
            },
        }
    }
}

/// The error of a field is the error of every longer list of fields.
pub proof fn lemma_parse_fields_error<T: FromText>(fields: Seq<Seq<char>>, k: int)
    requires
        0 <= k <= fields.len(),
        parse_fields::<T>(fields.take(k)) is Err,
    ensures
        parse_fields::<T>(fields) == parse_fields::<T>(fields.take(k)),
    decreases fields.len() - k,
{
    if k == fields.len() {
        assert(fields.take(k) =~= fields);
    } else {
        assert(fields.drop_last().take(k) =~= fields.take(k));
        lemma_parse_fields_error::<T>(fields.drop_last(), k);
    }
}

/// Fields that are the texts of values denote these values.
pub proof fn lemma_parse_fields_of_texts<T: TextRoundTrip>(values: Seq<T>)
    ensures
        parse_fields::<T>(Seq::new(values.len(), |i: int| values[i].text())) == Ok::<
            Seq<T::V>,
            T::Err,
        >(Seq::new(values.len(), |i: int| values[i].deep_view())),
    decreases values.len(),
{
    let fields = Seq::new(values.len(), |i: int| values[i].text());
    let models = Seq::new(values.len(), |i: int| values[i].deep_view());
    if values.len() == 0 {
        assert(models =~= Seq::empty());
    } else {
        let front = values.drop_last();
        lemma_parse_fields_of_texts::<T>(front);
        assert(fields.drop_last() =~= Seq::new(front.len(), |i: int| front[i].text()));
        values.last().lemma_round_trip();
        assert(models =~= Seq::new(front.len(), |i: int| front[i].deep_view()).push(
            values.last().deep_view(),
        ));
    }
}

impl<T: FromText> FromText for Vec<T> {
    type Err = T::Err;

    /// A text denotes the sequence of what its `;`-separated fields denote.
    open spec fn parse_spec(text: Seq<char>) -> Result<Seq<T::V>, T::Err> {
        parse_fields::<T>(split_fields(text))
    }

    fn from_text(text: &str) -> (r: Result<Vec<T>, T::Err>) {
        let pieces = split_text(text);
        let ghost fields = split_fields(text@);
        let mut out: Vec<T> = Vec::new();
        let mut i: usize = 0;
        assert(fields.take(0) =~= Seq::empty());
        assert(out.deep_view() =~= Seq::empty());
        while i < pieces.len()
            invariant
                i <= pieces.len(),
                pieces.deep_view() == fields,
                fields == split_fields(text@),
                parse_fields::<T>(fields.take(i as int)) == Ok::<Seq<T::V>, T::Err>(out.deep_view()),
            decreases pieces.len() - i,
        {
            let ghost before = out.deep_view();
            proof {
                assert(fields.take(i + 1).drop_last() =~= fields.take(i as int));
                assert(fields.take(i + 1).last() == pieces[i as int]@);
            }
            match T::from_text(pieces[i].as_str()) {
                Ok(v) => {
                    out.push(v);
                    assert(out.deep_view() =~= before.push(v.deep_view()));
                },
                Err(e) => {
                    proof {
                        lemma_parse_fields_error::<T>(fields, i + 1);
                    }
                    return Err(e);
                },
            }
            i += 1;
        }
        assert(fields.take(pieces.len() as int) =~= fields);
        Ok(out)
    }
}

impl<T: BTToString> BTToString for Vec<T> {
    /// The texts of the items with a `;` between neighbours.
    open spec fn text(&self) -> Seq<char> {
        join_fields(Seq::new(self@.len(), |i: int| self@[i].text()))
    }

    fn bt_to_string(&self) -> (r: String) {
        let ghost fields = Seq::new(self@.len(), |i: int| self@[i].text());
        let mut out = String::new();
        let mut i: usize = 0;
        assert(fields.take(0) =~= Seq::empty());
        while i < self.len()
            invariant
                i <= self.len(),
                fields == Seq::new(self@.len(), |i: int| self@[i].text()),
                out@ == join_fields(fields.take(i as int)),
            decreases self.len() - i,
        {
            if i > 0 {
                out.push(DELIMITER);
            }
            let piece = self[i].bt_to_string();
            out.push_str(piece.as_str());
            proof {
                assert(fields.take(i + 1).drop_last() =~= fields.take(i as int));
                assert(fields.take(i + 1).last() == self@[i as int].text());
                if i > 0 {
                    assert(out@ =~= join_fields(fields.take(i as int)) + seq![DELIMITER] + piece@);
                } else {
                    assert(join_fields(fields.take(0)) =~= Seq::<char>::empty());
                    assert(out@ =~= piece@);
                }
            }
            i += 1;
        }
        assert(fields.take(self.len() as int) =~= fields);
        out
    }
}

/// Reading the text of a sequence gives the sequence back, if it has at
/// least one item and no item's text holds the separator.
pub proof fn lemma_sequence_round_trip<T: TextRoundTrip>(values: Vec<T>)
    requires
        values.len() >= 1,
        forall|i: int| 0 <= i < values.len() ==> !has_char(#[trigger] values@[i].text(), DELIMITER),
    ensures
        <Vec<T> as FromText>::parse_spec(values.text()) == Ok::<Seq<T::V>, T::Err>(
            values.deep_view(),
        ),
{
    let fields = Seq::new(values@.len(), |i: int| values@[i].text());
    lemma_split_join(fields);
    lemma_parse_fields_of_texts::<T>(values@);
    assert(values.deep_view() =~= Seq::new(values@.len(), |i: int| values@[i].deep_view()));
}

} // verus!
