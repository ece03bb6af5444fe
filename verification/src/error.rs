//! Errors of the codec: what went wrong, and at which byte.

use vstd::prelude::*;

verus! {

/// The kinds of data item a caller is willing to accept at one point of a
/// decode. Major type 7 is split into its three uses; tags (major type 6)
/// are always let through and so have no flag.
#[derive(Debug, Clone, Copy, PartialEq, Eq, Structural)]
pub struct ExpectedSet {
    /// Major type 0.
    pub int_pos: bool,
    /// Major type 1.
    pub int_neg: bool,
    /// Major type 2.
    pub bytes: bool,
    /// Major type 3.
    pub string: bool,
    /// Major type 4.
    pub array: bool,
    /// Major type 5.
    pub map: bool,
    /// `false` and `true` of major type 7.
    pub boolean: bool,
    /// `null` and `undefined` of major type 7.
    pub null: bool,
    /// The three float widths of major type 7.
    pub float: bool,
}

impl ExpectedSet {
    /// The set that admits nothing.
    pub open spec fn spec_none() -> ExpectedSet {
        ExpectedSet {
            int_pos: false,
            int_neg: false,
            bytes: false,
            string: false,
            array: false,
            map: false,
            boolean: false,
            null: false,
            float: false,
        }
    }

    /// The set that admits every kind.
    pub open spec fn spec_all() -> ExpectedSet {
        ExpectedSet {
            int_pos: true,
            int_neg: true,
            bytes: true,
            string: true,
            array: true,
            map: true,
            boolean: true,
            null: true,
            float: true,
        }
    }

    /// Whether a data item whose initial byte is `byte` is admitted.
    ///
    /// Additional information 28 to 30 is reserved in every major type, 31
    /// marks an indefinite length only in major types 2 to 5, and of major
    /// type 7 only the booleans, null, undefined and the floats are known.
    pub open spec fn allows(self, byte: u8) -> bool {
        if byte <= 0x1b {
            self.int_pos
        } else if 0x20 <= byte <= 0x3b {
            self.int_neg
        } else if 0x40 <= byte <= 0x5b || byte == 0x5f {
            self.bytes
        } else if 0x60 <= byte <= 0x7b || byte == 0x7f {
            self.string
        } else if 0x80 <= byte <= 0x9b || byte == 0x9f {
            self.array
        } else if 0xa0 <= byte <= 0xbb || byte == 0xbf {
            self.map
        } else if 0xc0 <= byte <= 0xdb {
            true
        } else if 0xf4 <= byte <= 0xf5 {
            self.boolean
        } else if 0xf6 <= byte <= 0xf7 {
            self.null
        } else if 0xf9 <= byte <= 0xfb {
            self.float
        } else {
            false
        }
    }

    /// Nothing is expected.
    pub fn none() -> (s: ExpectedSet)
        ensures
            s == Self::spec_none(),
    {
        ExpectedSet {
            int_pos: false,
            int_neg: false,
            bytes: false,
            string: false,
            array: false,
            map: false,
            boolean: false,
            null: false,
            float: false,
        }
    }

    /// Anything is expected.
    pub fn all() -> (s: ExpectedSet)
        ensures
            s == Self::spec_all(),
    {
        ExpectedSet {
            int_pos: true,
            int_neg: true,
            bytes: true,
            string: true,
            array: true,
            map: true,
            boolean: true,
            null: true,
            float: true,
        }
    }

    /// A text string and nothing else.
    pub fn string() -> (s: ExpectedSet)
        ensures
            s == (ExpectedSet { string: true, ..Self::spec_none() }),
    {
        let mut s = Self::none();
        s.string = true;
        s
    }

    /// What a caller that asks for a string takes: text or bytes.
    pub fn for_string() -> (s: ExpectedSet)
        ensures
            s == (ExpectedSet { string: true, bytes: true, ..Self::spec_none() }),
    {
        let mut s = Self::none();
        s.string = true;
        s.bytes = true;
        s
    }

    /// What a caller that asks for an identifier takes: text or an unsigned
    /// index.
    pub fn for_string_and_uint() -> (s: ExpectedSet)
        ensures
            s == (ExpectedSet { string: true, int_pos: true, ..Self::spec_none() }),
    {
        let mut s = Self::none();
        s.string = true;
        s.int_pos = true;
        s
    }

    /// What a caller that asks for bytes takes: bytes, text, or an array of
    /// small integers.
    pub fn for_bytes() -> (s: ExpectedSet)
        ensures
            s == (ExpectedSet { array: true, string: true, bytes: true, ..Self::spec_none() }),
    {
        let mut s = Self::none();
        s.array = true;
        s.string = true;
        s.bytes = true;
        s
    }

    /// What a caller that asks for a signed integer takes.
    pub fn for_sint() -> (s: ExpectedSet)
        ensures
            s == (ExpectedSet { int_pos: true, int_neg: true, ..Self::spec_none() }),
    {
        let mut s = Self::none();
        s.int_pos = true;
        s.int_neg = true;
        s
    }

    /// What a caller that asks for an unsigned integer takes.
    pub fn for_uint() -> (s: ExpectedSet)
        ensures
            s == (ExpectedSet { int_pos: true, ..Self::spec_none() }),
    {
        let mut s = Self::none();
        s.int_pos = true;
        s
    }

    /// What a caller that asks for a float takes: a float or an integer.
    pub fn for_float() -> (s: ExpectedSet)
        ensures
            s == (ExpectedSet { int_pos: true, int_neg: true, float: true, ..Self::spec_none() }),
    {
        let mut s = Self::none();
        s.int_pos = true;
        s.int_neg = true;
        s.float = true;
        s
    }

    /// What a caller that asks for a sequence takes.
    pub fn for_seq() -> (s: ExpectedSet)
        ensures
            s == (ExpectedSet { array: true, ..Self::spec_none() }),
    {
        let mut s = Self::none();
        s.array = true;
        s
    }

    /// What a caller that asks for a map takes.
    pub fn for_map() -> (s: ExpectedSet)
        ensures
            s == (ExpectedSet { map: true, ..Self::spec_none() }),
    {
        let mut s = Self::none();
        s.map = true;
        s
    }

    /// What a caller that asks for a boolean takes.
    pub fn for_bool() -> (s: ExpectedSet)
        ensures
            s == (ExpectedSet { boolean: true, ..Self::spec_none() }),
    {
        let mut s = Self::none();
        s.boolean = true;
        s
    }

    /// What a caller that asks for the unit value takes.
    pub fn for_unit() -> (s: ExpectedSet)
        ensures
            s == (ExpectedSet { null: true, ..Self::spec_none() }),
    {
        let mut s = Self::none();
        s.null = true;
        s
    }
}

/// What went wrong.
#[derive(Debug, PartialEq, Eq)]
pub enum ErrorCode {
    /// A complaint in words, raised by the layer that drives the codec or by
    /// the encoder for a number that has no encoding.
    Message(String),
    /// A buffer of fixed size was too small for what had to go into it.
    ScratchTooSmall,
    /// The input ended where a data item was due that is no element of an
    /// array and no key or value of a map, or in the middle of a head,
    /// where the bytes of its argument were due.
    EofWhileParsingValue,
    /// The input ended inside an array, with or without a length: where an
    /// element or the break byte was due.
    EofWhileParsingArray,
    /// The input ended inside a map, with or without a length: where a
    /// key, the value behind a key or the break byte was due.
    EofWhileParsingMap,
    /// The input ended inside a byte or text string: in its content, or
    /// where a chunk or the break byte of a string of indefinite length
    /// was due.
    EofWhileParsingString,
    /// The initial byte starts no data item that was admitted here. Holds
    /// the set that was admitted and the byte.
    UnexpectedCode(ExpectedSet, u8),
    /// A length does not fit the address space of this machine.
    LengthOutOfRange,
    /// A text string is not UTF-8.
    InvalidUtf8,
    /// Arrays, maps and tags are nested deeper than the decoder goes.
    RecursionLimitExceeded,
    /// Input is left where a value, or a container, should have ended.
    TrailingData,
    /// An array that carries an enum holds too few elements.
    ArrayTooShort,
    /// An array that carries an enum holds too many elements.
    ArrayTooLong,
    /// A map key has a form that the decoder was told to refuse.
    WrongStructFormat,
    /// An enum has a form that the decoder was told to refuse.
    WrongEnumFormat,
}

/// A rough sorting of the error codes.
#[derive(Debug, Clone, Copy, PartialEq, Eq, Structural)]
pub enum Category {
    /// The input is not well-formed.
    Syntax,
    /// The input is well-formed but not what was asked for.
    Data,
    /// The input ended too early.
    Eof,
}

impl ErrorCode {
    /// The category a code belongs to.
    pub open spec fn category(self) -> Category {
        match self {
            ErrorCode::Message(_) => Category::Data,
            ErrorCode::ScratchTooSmall => Category::Data,
            ErrorCode::WrongStructFormat => Category::Data,
            ErrorCode::WrongEnumFormat => Category::Data,
            ErrorCode::EofWhileParsingValue => Category::Eof,
            ErrorCode::EofWhileParsingArray => Category::Eof,
            ErrorCode::EofWhileParsingMap => Category::Eof,
            ErrorCode::EofWhileParsingString => Category::Eof,
            _ => Category::Syntax,
        }
    }
}

/// An error of the codec: a code, and how many bytes of input had been taken
/// when it was found. An error raised while encoding has offset 0.
#[derive(Debug, PartialEq, Eq)]
pub struct Error {
    /// What went wrong.
    pub code: ErrorCode,
    /// The position in the input at which it was found.
    pub offset: u64,
}

impl Error {
    /// An error found at `offset` bytes into the input.
    pub fn syntax(code: ErrorCode, offset: u64) -> (e: Error)
        ensures
            e.code == code,
            e.offset == offset,
    {
        Error { code, offset }
    }

    /// An error that is described in words and belongs to no position.
    pub fn message(text: &str) -> (e: Error)
        ensures
            e.code matches ErrorCode::Message(s) && s@ == text@,
            e.offset == 0,
    {
        Error { code: ErrorCode::Message(text.to_owned()), offset: 0 }
    }

    /// An error for a fixed buffer that overflowed at `offset`.
    pub fn scratch_too_small(offset: u64) -> (e: Error)
        ensures
            e.code == ErrorCode::ScratchTooSmall,
            e.offset == offset,
    {
        Error { code: ErrorCode::ScratchTooSmall, offset }
    }

    /// The position in the input at which the error was found.
    pub fn offset(&self) -> (o: u64)
        ensures
            o == self.offset,
    {
        self.offset
    }

    /// The category of the error.
    pub fn classify(&self) -> (c: Category)
        ensures
            c == self.code.category(),
    {
        match &self.code {
            ErrorCode::Message(_) => Category::Data,
            ErrorCode::ScratchTooSmall => Category::Data,
            ErrorCode::WrongStructFormat => Category::Data,
            ErrorCode::WrongEnumFormat => Category::Data,
            ErrorCode::EofWhileParsingValue => Category::Eof,
            ErrorCode::EofWhileParsingArray => Category::Eof,
            ErrorCode::EofWhileParsingMap => Category::Eof,
            ErrorCode::EofWhileParsingString => Category::Eof,
            _ => Category::Syntax,
        }
    }

    /// Whether the input ended too early.
    pub fn is_eof(&self) -> (b: bool)
        ensures
            b == (self.code.category() == Category::Eof),
    {
        self.classify() == Category::Eof
    }

    /// Whether the input was not well-formed.
    pub fn is_syntax(&self) -> (b: bool)
        ensures
            b == (self.code.category() == Category::Syntax),
    {
        self.classify() == Category::Syntax
    }

    /// Whether the input was well-formed but not what was asked for.
    pub fn is_data(&self) -> (b: bool)
        ensures
            b == (self.code.category() == Category::Data),
    {
        self.classify() == Category::Data
    }
}

} // verus!
