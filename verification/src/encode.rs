//! An emitter of RON text, driven one value at a time.
//!
//! Every compound value (struct, tuple, sequence, map, enum variant) is
//! written by a pair of calls: an `_open` call that writes what comes before
//! the contents and adjusts the state, and a `_close` call that writes what
//! comes after them. Between the two, the caller emits the contents.

use vstd::prelude::*;
use vstd::string::StringExecFns;
use crate::util::{ascii_chars, decimal, decimal_string, signed_decimal, signed_decimal_string, string_push};

verus! {

/// What the encoder accepts next: any element, or only a constant (a map
/// key must be a constant).
#[derive(Clone, Copy, Debug, PartialEq, Eq, Structural)]
pub enum Expect {
    Constant,
    Element,
}

/// Why an emission failed.
#[derive(Clone, Copy, Debug, PartialEq, Eq, Structural)]
pub enum EncoderError {
    /// The output could not be written.
    Format,
    /// A compound value was emitted where only a constant may stand.
    Expectation(Expect),
}

/// The result of one emission.
pub type EncodeResult = Result<(), EncoderError>;

/// Compact output, or pretty output with a line per item and `indent`
/// repeated once per nesting level.
#[derive(Clone, Debug)]
pub enum EncodingFormat {
    Compact,
    Pretty { indent: String },
}

/// Where the encoder stands.
#[derive(Clone, Copy, Debug)]
pub struct EncodingState {
    pub expect: Expect,
    pub indent: u32,
    pub start_line: bool,
}

/// An encoder that writes RON text into an owned string.
pub struct Encoder {
    output: String,
    format: EncodingFormat,
    state: EncodingState,
}

/// What an encoder holds: the text written so far, the indentation unit of
/// pretty output (`None` when compact), and its state.
pub struct EncoderModel {
    pub output: Seq<char>,
    pub pretty: Option<Seq<char>>,
    pub expect: Expect,
    pub indent: nat,
    pub start_line: bool,
}

impl EncoderModel {
    /// The same encoder with `s` written after its output.
    pub open spec fn write(self, s: Seq<char>) -> EncoderModel {
        EncoderModel { output: self.output + s, ..self }
    }

    /// The same encoder at nesting level `n`.
    pub open spec fn at_level(self, n: nat) -> EncoderModel {
        EncoderModel { indent: n, ..self }
    }

    /// The same encoder expecting `e`.
    pub open spec fn expecting(self, e: Expect) -> EncoderModel {
        EncoderModel { expect: e, ..self }
    }

    /// The same encoder with its line flag set to `b`.
    pub open spec fn starting_lines(self, b: bool) -> EncoderModel {
        EncoderModel { start_line: b, ..self }
    }

    /// What a line break writes: nothing when compact; when pretty, a
    /// newline and the indentation unit once per nesting level.
    pub open spec fn line_break(self) -> Seq<char> {
        match self.pretty {
            Some(unit) => seq!['\n'] + repeat(unit, self.indent),
            None => Seq::empty(),
        }
    }

    /// The space written after a `:`: one blank when pretty, none when
    /// compact.
    pub open spec fn space(self) -> Seq<char> {
        match self.pretty {
            Some(_) => seq![' '],
            None => Seq::empty(),
        }
    }
}

/// `s` written `n` times.
pub open spec fn repeat(s: Seq<char>, n: nat) -> Seq<char>
    decreases n,
{
    if n == 0 {
        Seq::empty()
    } else {
        repeat(s, (n - 1) as nat) + s
    }
}

impl View for Encoder {
    type V = EncoderModel;

    closed spec fn view(&self) -> EncoderModel {
        EncoderModel {
            output: self.output@,
            pretty: match self.format {
                EncodingFormat::Compact => None,
                EncodingFormat::Pretty { indent } => Some(indent@),
            },
            expect: self.state.expect,
            indent: self.state.indent as nat,
            start_line: self.state.start_line,
        }
    }
}

impl Encoder {
    /// An encoder of compact RON.
    pub fn new() -> (e: Encoder)
        ensures
            e@ == (EncoderModel {
                output: Seq::empty(),
                pretty: None,
                expect: Expect::Element,
                indent: 0,
                start_line: false,
            }),
    {
        Encoder {
            output: String::new(),
            format: EncodingFormat::Compact,
            state: EncodingState { expect: Expect::Element, indent: 0, start_line: false },
        }
    }

    /// An encoder of pretty RON that indents each nesting level by `indent`.
    pub fn new_pretty(indent: &str) -> (e: Encoder)
        ensures
            e@ == (EncoderModel {
                output: Seq::empty(),
                pretty: Some(indent@),
                expect: Expect::Element,
                indent: 0,
                start_line: false,
            }),
    {
        Encoder {
            output: String::new(),
            format: EncodingFormat::Pretty { indent: indent.to_string() },
            state: EncodingState { expect: Expect::Element, indent: 0, start_line: false },
        }
    }

    /// The text written so far.
    pub fn output(&self) -> (s: &str)
        ensures
            s@ == self@.output,
    {
        self.output.as_str()
    }

    /// The text written, taking the encoder apart.
    pub fn into_string(self) -> (s: String)
        ensures
            s@ == self@.output,
    {
        self.output
    }

    /// The current nesting level.
    pub fn indent_level(&self) -> (n: u32)
        ensures
            n == self@.indent,
    {
        self.state.indent
    }

    /// What the encoder accepts next.
    pub fn expect(&self) -> (e: Expect)
        ensures
            e == self@.expect,
    {
        self.state.expect
    }

    fn write_str(&mut self, s: &str)
        ensures
            final(self)@ == old(self)@.write(s@),
    {
        self.output.append(s);
    }

    fn write_char(&mut self, c: char)
        ensures
            final(self)@ == old(self)@.write(seq![c]),
    {
        string_push(&mut self.output, c);
        assert(old(self)@.output.push(c) =~= old(self)@.output + seq![c]);
    }

    /// Starts a new line: nothing when compact; when pretty, a newline and
    /// the indentation unit once per nesting level.
    pub fn new_line(&mut self)
        ensures
            final(self)@ == old(self)@.write(old(self)@.line_break()),
    {
        let n = self.state.indent;
        match &self.format {
            EncodingFormat::Compact => {
                assert(old(self)@.output + Seq::<char>::empty() =~= old(self)@.output);
                assert(self@ == old(self)@.write(old(self)@.line_break()));
            },
            EncodingFormat::Pretty { indent } => {
                string_push(&mut self.output, '\n');
                let mut i: u32 = 0;
                while i < n
                    invariant
                        i <= n,
                        self.output@ == old(self)@.output + seq!['\n'] + repeat(indent@, i as nat),
                        self.state == old(self).state,
                        self.format == old(self).format,
                    decreases n - i,
                {
                    self.output.append(indent.as_str());
                    i = i + 1;
                    assert(self.output@ == old(self)@.output + seq!['\n'] + repeat(indent@, i as nat));
                }
                assert(old(self)@.output.push('\n') =~= old(self)@.output + seq!['\n']);
                assert(old(self)@.output + seq!['\n'] + repeat(indent@, n as nat) =~= old(self)@.output
                    + (seq!['\n'] + repeat(indent@, n as nat)));
                assert(old(self)@.pretty == Some(indent@));
                assert(self@.output == old(self)@.write(old(self)@.line_break()).output);
                assert(self@ == old(self)@.write(old(self)@.line_break()));
            },
        }
    }

    /// The space that follows a `:`: one blank when pretty, none when
    /// compact.
    pub fn get_space(&self) -> (s: &'static str)
        ensures
            s@ == self@.space(),
    {
        proof {
            reveal_strlit(" ");
            reveal_strlit("");
        }
        match self.format {
            EncodingFormat::Pretty { .. } => " ",
            EncodingFormat::Compact => "",
        }
    }

    /// Writes `text`, the displayed form of a constant (a number or a
    /// boolean).
    pub fn emit_constant(&mut self, text: &str) -> (r: EncodeResult)
        ensures
            r is Ok,
            final(self)@ == old(self)@.write(text@),
    {
        self.write_str(text);
        Ok(())
    }

    /// Writes `text` between two `escape` characters.
    pub fn emit_escape(&mut self, text: &str, escape: char) -> (r: EncodeResult)
        ensures
            r is Ok,
            final(self)@ == old(self)@.write(seq![escape] + text@ + seq![escape]),
    {
        self.write_char(escape);
        self.write_str(text);
        self.write_char(escape);
        assert(old(self)@.output + seq![escape] + text@ + seq![escape] =~= old(self)@.output + (
        seq![escape] + text@ + seq![escape]));
        Ok(())
    }

    fn emit_signed(&mut self, v: i64) -> (r: EncodeResult)
        ensures
            r is Ok,
            final(self)@ == old(self)@.write(ascii_chars(signed_decimal(v as int))),
    {
        let s = signed_decimal_string(v);
        self.write_str(s.as_str());
        Ok(())
    }

    fn emit_unsigned(&mut self, v: u64) -> (r: EncodeResult)
        ensures
            r is Ok,
            final(self)@ == old(self)@.write(ascii_chars(decimal(v as nat))),
    {
        let s = decimal_string(v);
        self.write_str(s.as_str());
        Ok(())
    }

    /// Writes `()`, where an element may stand.
    pub fn emit_nil(&mut self) -> (r: EncodeResult)
        ensures
            old(self)@.expect == Expect::Element ==> r is Ok && final(self)@ == old(self)@.write(
                seq!['(', ')'],
            ),
            old(self)@.expect != Expect::Element ==> r == Err::<(), EncoderError>(
                EncoderError::Expectation(old(self)@.expect),
            ) && final(self)@ == old(self)@,
    {
        if self.state.expect == Expect::Element {
            self.write_char('(');
            self.write_char(')');
            assert(old(self)@.output + seq!['('] + seq![')'] =~= old(self)@.output + seq!['(', ')']);
            Ok(())
        } else {
            Err(EncoderError::Expectation(self.state.expect))
        }
    }

    /// Writes `v` in decimal.
    pub fn emit_usize(&mut self, v: usize) -> (r: EncodeResult)
        ensures
            r is Ok,
            final(self)@ == old(self)@.write(ascii_chars(decimal(v as nat))),
    {
        self.emit_unsigned(v as u64)
    }

    /// Writes `v` in decimal.
    pub fn emit_u64(&mut self, v: u64) -> (r: EncodeResult)
        ensures
            r is Ok,
            final(self)@ == old(self)@.write(ascii_chars(decimal(v as nat))),
    {
        self.emit_unsigned(v)
    }

    /// Writes `v` in decimal.
    pub fn emit_u32(&mut self, v: u32) -> (r: EncodeResult)
        ensures
            r is Ok,
            final(self)@ == old(self)@.write(ascii_chars(decimal(v as nat))),
    {
        self.emit_unsigned(v as u64)
    }

    /// Writes `v` in decimal.
    pub fn emit_u16(&mut self, v: u16) -> (r: EncodeResult)
        ensures
            r is Ok,
            final(self)@ == old(self)@.write(ascii_chars(decimal(v as nat))),
    {
        self.emit_unsigned(v as u64)
    }

    /// Writes `v` in decimal.
    pub fn emit_u8(&mut self, v: u8) -> (r: EncodeResult)
        ensures
            r is Ok,
            final(self)@ == old(self)@.write(ascii_chars(decimal(v as nat))),
    {
        self.emit_unsigned(v as u64)
    }

    /// Writes `v` in decimal, with a `-` in front when negative.
    pub fn emit_isize(&mut self, v: isize) -> (r: EncodeResult)
        ensures
            r is Ok,
            final(self)@ == old(self)@.write(ascii_chars(signed_decimal(v as int))),
    {
        self.emit_signed(v as i64)
    }

    /// Writes `v` in decimal, with a `-` in front when negative.
    pub fn emit_i64(&mut self, v: i64) -> (r: EncodeResult)
        ensures
            r is Ok,
            final(self)@ == old(self)@.write(ascii_chars(signed_decimal(v as int))),
    {
        self.emit_signed(v)
    }

    /// Writes `v` in decimal, with a `-` in front when negative.
    pub fn emit_i32(&mut self, v: i32) -> (r: EncodeResult)
        ensures
            r is Ok,
            final(self)@ == old(self)@.write(ascii_chars(signed_decimal(v as int))),
    {
        self.emit_signed(v as i64)
    }

    /// Writes `v` in decimal, with a `-` in front when negative.
    pub fn emit_i16(&mut self, v: i16) -> (r: EncodeResult)
        ensures
            r is Ok,
            final(self)@ == old(self)@.write(ascii_chars(signed_decimal(v as int))),
    {
        self.emit_signed(v as i64)
    }

    /// Writes `v` in decimal, with a `-` in front when negative.
    pub fn emit_i8(&mut self, v: i8) -> (r: EncodeResult)
        ensures
            r is Ok,
            final(self)@ == old(self)@.write(ascii_chars(signed_decimal(v as int))),
    {
        self.emit_signed(v as i64)
    }

    /// Writes `true` or `false`.
    pub fn emit_bool(&mut self, v: bool) -> (r: EncodeResult)
        ensures
            r is Ok,
            final(self)@ == old(self)@.write(if v { "true"@ } else { "false"@ }),
    {
        if v {
            self.emit_constant("true")
        } else {
            self.emit_constant("false")
        }
    }

    /// Writes `v` between single quotes.
    pub fn emit_char(&mut self, v: char) -> (r: EncodeResult)
        ensures
            r is Ok,
            final(self)@ == old(self)@.write(seq!['\'', v, '\'']),
    {
        self.write_char('\'');
        self.write_char(v);
        self.write_char('\'');
        assert(old(self)@.output + seq!['\''] + seq![v] + seq!['\''] =~= old(self)@.output + seq![
            '\'',
            v,
            '\'',
        ]);
        Ok(())
    }

    /// Writes `v` between double quotes, as it is.
    pub fn emit_str(&mut self, v: &str) -> (r: EncodeResult)
        ensures
            r is Ok,
            final(self)@ == old(self)@.write(seq!['"'] + v@ + seq!['"']),
    {
        self.emit_escape(v, '"')
    }

    /// Writes `None`.
    pub fn emit_option_none(&mut self) -> (r: EncodeResult)
        ensures
            r is Ok,
            final(self)@ == old(self)@.write("None"@),
    {
        self.write_str("None");
        Ok(())
    }

    /// Checks that an enum, or an option, may stand here: only where an
    /// element is expected. Nothing is written.
    pub fn emit_enum_open(&self) -> (r: EncodeResult)
        ensures
            r is Ok <==> self@.expect == Expect::Element,
            r is Err ==> r == Err::<(), EncoderError>(EncoderError::Expectation(self@.expect)),
    {
        if self.state.expect == Expect::Element {
            Ok(())
        } else {
            Err(EncoderError::Expectation(self.state.expect))
        }
    }

    /// Opens a struct (a tuple, when `name` is empty) of `len` fields. Where
    /// no element may stand it fails and writes nothing. With no field it
    /// writes the name alone and answers `false`: there are no contents and
    /// nothing to close. Otherwise it writes the name and `(`, answers
    /// `true`, and, with more than one field, puts each field on a line of
    /// its own one level deeper.
    pub fn emit_struct_open(&mut self, name: &str, len: usize) -> (r: Result<bool, EncoderError>)
        requires
            len > 1 ==> old(self)@.indent < u32::MAX,
        ensures
            old(self)@.expect != Expect::Element ==> r == Err::<bool, EncoderError>(
                EncoderError::Expectation(old(self)@.expect),
            ) && final(self)@ == old(self)@,
            old(self)@.expect == Expect::Element && len == 0 ==> r == Ok::<bool, EncoderError>(false)
                && final(self)@ == old(self)@.write(name@),
            old(self)@.expect == Expect::Element && len == 1 ==> r == Ok::<bool, EncoderError>(true)
                && final(self)@ == old(self)@.write(name@ + seq!['(']).starting_lines(false),
            old(self)@.expect == Expect::Element && len > 1 ==> r == Ok::<bool, EncoderError>(true)
                && final(self)@ == old(self)@.write(name@ + seq!['(']).starting_lines(true).at_level(
                old(self)@.indent + 1,
            ),
    {
        if self.state.expect != Expect::Element {
            return Err(EncoderError::Expectation(self.state.expect));
        }
        self.write_str(name);
        if len == 0 {
            return Ok(false);
        }
        self.write_char('(');
        assert(old(self)@.output + name@ + seq!['('] =~= old(self)@.output + (name@ + seq!['(']));
        if len > 1 {
            self.state.start_line = true;
            self.state.indent = self.state.indent + 1;
        } else {
            self.state.start_line = false;
        }
        Ok(true)
    }

    /// Closes a struct opened with `len` fields: with more than one, goes
    /// back a level and starts a line; then writes `)`.
    pub fn emit_struct_close(&mut self, len: usize)
        requires
            len > 1 ==> old(self)@.indent >= 1,
        ensures
            len > 1 ==> final(self)@ == old(self)@.at_level((old(self)@.indent - 1) as nat).write(
                old(self)@.at_level((old(self)@.indent - 1) as nat).line_break() + seq![')'],
            ),
            len <= 1 ==> final(self)@ == old(self)@.write(seq![')']),
    {
        if len > 1 {
            self.state.indent = self.state.indent - 1;
            let ghost mid = self@;
            self.new_line();
            self.write_char(')');
            assert(mid.output + mid.line_break() + seq![')'] =~= mid.output + (mid.line_break()
                + seq![')']));
        } else {
            self.write_char(')');
        }
    }

    /// Opens a named field: starts a line, then writes the name, `:` and
    /// the space.
    pub fn emit_struct_field_open(&mut self, name: &str)
        ensures
            final(self)@ == old(self)@.write(
                old(self)@.line_break() + name@ + seq![':'] + old(self)@.space(),
            ),
    {
        self.new_line();
        let space = self.get_space();
        self.write_str(name);
        self.write_char(':');
        self.write_str(space);
        assert(old(self)@.output + old(self)@.line_break() + name@ + seq![':'] + old(self)@.space()
            =~= old(self)@.output + (old(self)@.line_break() + name@ + seq![':']
            + old(self)@.space()));
    }

    /// Closes a named field with `,`.
    pub fn emit_struct_field_close(&mut self)
        ensures
            final(self)@ == old(self)@.write(seq![',']),
    {
        self.write_char(',');
    }

    /// Opens a tuple, sequence or variant item. When items go on lines of
    /// their own, starts a line and answers `true`; the answer is to be
    /// handed to [`Encoder::emit_tuple_arg_close`].
    pub fn emit_tuple_arg_open(&mut self) -> (r: bool)
        ensures
            r == old(self)@.start_line,
            r ==> final(self)@ == old(self)@.write(old(self)@.line_break()),
            !r ==> final(self)@ == old(self)@,
    {
        if self.state.start_line {
            self.new_line();
            true
        } else {
            false
        }
    }

    /// Closes an item: writes `,` after it when it was put on a line of its
    /// own.
    pub fn emit_tuple_arg_close(&mut self, on_own_line: bool)
        ensures
            on_own_line ==> final(self)@ == old(self)@.write(seq![',']),
            !on_own_line ==> final(self)@ == old(self)@,
    {
        if on_own_line {
            self.write_char(',');
        }
    }

    /// Opens a sequence of `len` items. Where no element may stand it fails
    /// and writes nothing. Empty, it writes `[]` and answers `false`.
    /// Otherwise it writes `[`, puts the items on lines of their own one
    /// level deeper, and answers `true`.
    pub fn emit_seq_open(&mut self, len: usize) -> (r: Result<bool, EncoderError>)
        requires
            len > 0 ==> old(self)@.indent < u32::MAX,
        ensures
            old(self)@.expect != Expect::Element ==> r == Err::<bool, EncoderError>(
                EncoderError::Expectation(old(self)@.expect),
            ) && final(self)@ == old(self)@,
            old(self)@.expect == Expect::Element && len == 0 ==> r == Ok::<bool, EncoderError>(false)
                && final(self)@ == old(self)@.write(seq!['[', ']']),
            old(self)@.expect == Expect::Element && len > 0 ==> r == Ok::<bool, EncoderError>(true)
                && final(self)@ == old(self)@.write(seq!['[']).starting_lines(true).at_level(
                old(self)@.indent + 1,
            ),
    {
        if self.state.expect != Expect::Element {
            return Err(EncoderError::Expectation(self.state.expect));
        }
        if len == 0 {
            self.write_char('[');
            self.write_char(']');
            assert(old(self)@.output + seq!['['] + seq![']'] =~= old(self)@.output + seq!['[', ']']);
            return Ok(false);
        }
        self.state.start_line = true;
        self.write_char('[');
        self.state.indent = self.state.indent + 1;
        Ok(true)
    }

    /// Closes a sequence: goes back a level, starts a line, writes `]`.
    pub fn emit_seq_close(&mut self)
        requires
            old(self)@.indent >= 1,
        ensures
            final(self)@ == old(self)@.at_level((old(self)@.indent - 1) as nat).write(
                old(self)@.at_level((old(self)@.indent - 1) as nat).line_break() + seq![']'],
            ),
    {
        self.close_level(']');
    }

    fn close_level(&mut self, c: char)
        requires
            old(self)@.indent >= 1,
        ensures
            final(self)@ == old(self)@.at_level((old(self)@.indent - 1) as nat).write(
                old(self)@.at_level((old(self)@.indent - 1) as nat).line_break() + seq![c],
            ),
    {
        self.state.indent = self.state.indent - 1;
        let ghost mid = self@;
        self.new_line();
        self.write_char(c);
        assert(mid.output + mid.line_break() + seq![c] =~= mid.output + (mid.line_break() + seq![
            c,
        ]));
    }

    /// Opens a map of `len` entries. Where no element may stand it fails and
    /// writes nothing. Empty, it writes `{}` and answers `false`. Otherwise
    /// it writes `{`, goes a level deeper and answers `true`.
    pub fn emit_map_open(&mut self, len: usize) -> (r: Result<bool, EncoderError>)
        requires
            len > 0 ==> old(self)@.indent < u32::MAX,
        ensures
            old(self)@.expect != Expect::Element ==> r == Err::<bool, EncoderError>(
                EncoderError::Expectation(old(self)@.expect),
            ) && final(self)@ == old(self)@,
            old(self)@.expect == Expect::Element && len == 0 ==> r == Ok::<bool, EncoderError>(false)
                && final(self)@ == old(self)@.write(seq!['{', '}']),
            old(self)@.expect == Expect::Element && len > 0 ==> r == Ok::<bool, EncoderError>(true)
                && final(self)@ == old(self)@.write(seq!['{']).at_level(old(self)@.indent + 1),
    {
        if self.state.expect != Expect::Element {
            return Err(EncoderError::Expectation(self.state.expect));
        }
        if len == 0 {
            self.write_char('{');
            self.write_char('}');
            assert(old(self)@.output + seq!['{'] + seq!['}'] =~= old(self)@.output + seq!['{', '}']);
            return Ok(false);
        }
        self.write_char('{');
        self.state.indent = self.state.indent + 1;
        Ok(true)
    }

    /// Closes a map: goes back a level, starts a line, writes `}`.
    pub fn emit_map_close(&mut self)
        requires
            old(self)@.indent >= 1,
        ensures
            final(self)@ == old(self)@.at_level((old(self)@.indent - 1) as nat).write(
                old(self)@.at_level((old(self)@.indent - 1) as nat).line_break() + seq!['}'],
            ),
    {
        self.close_level('}');
    }

    /// Opens a map key: starts a line and expects a constant. Answers what
    /// was expected before, to be handed to [`Encoder::emit_map_elt_key_close`].
    pub fn emit_map_elt_key_open(&mut self) -> (saved: Expect)
        ensures
            saved == old(self)@.expect,
            final(self)@ == old(self)@.write(old(self)@.line_break()).expecting(Expect::Constant),
    {
        self.new_line();
        let saved = self.state.expect;
        self.state.expect = Expect::Constant;
        saved
    }

    /// Closes a map key: writes `,` and expects `saved` again.
    pub fn emit_map_elt_key_close(&mut self, saved: Expect)
        ensures
            final(self)@ == old(self)@.write(seq![',']).expecting(saved),
    {
        self.write_char(',');
        self.state.expect = saved;
    }

    /// Opens a map value: writes `:` and the space, and expects an element.
    /// Answers what was expected before.
    pub fn emit_map_elt_val_open(&mut self) -> (saved: Expect)
        ensures
            saved == old(self)@.expect,
            final(self)@ == old(self)@.write(seq![':'] + old(self)@.space()).expecting(
                Expect::Element,
            ),
    {
        let space = self.get_space();
        self.write_char(':');
        self.write_str(space);
        assert(old(self)@.output + seq![':'] + old(self)@.space() =~= old(self)@.output + (seq![
            ':',
        ] + old(self)@.space()));
        let saved = self.state.expect;
        self.state.expect = Expect::Element;
        saved
    }

    /// Closes a map value: expects `saved` again.
    pub fn emit_map_elt_val_close(&mut self, saved: Expect)
        ensures
            final(self)@ == old(self)@.expecting(saved),
    {
        self.state.expect = saved;
    }

    /// Opens a struct variant: writes its name and `{` and goes a level
    /// deeper.
    pub fn emit_enum_struct_variant_open(&mut self, name: &str)
        requires
            old(self)@.indent < u32::MAX,
        ensures
            final(self)@ == old(self)@.write(name@ + seq!['{']).at_level(old(self)@.indent + 1),
    {
        self.write_str(name);
        self.write_char('{');
        assert(old(self)@.output + name@ + seq!['{'] =~= old(self)@.output + (name@ + seq!['{']));
        self.state.indent = self.state.indent + 1;
    }

    /// Closes a struct variant: goes back a level, starts a line, writes
    /// `}`.
    pub fn emit_enum_struct_variant_close(&mut self)
        requires
            old(self)@.indent >= 1,
        ensures
            final(self)@ == old(self)@.at_level((old(self)@.indent - 1) as nat).write(
                old(self)@.at_level((old(self)@.indent - 1) as nat).line_break() + seq!['}'],
            ),
    {
        self.close_level('}');
    }
}

} // verus!
