//! The error type that every fallible operation returns.

use vstd::prelude::*;
use vstd::string::StringExecFns;

verus! {

/// Every failure that can occur inside a filesystem operation.
#[derive(Debug, Clone, Copy, PartialEq, Eq, Structural)]
pub enum BafsError {
    /// A read from or a write to the block device failed.
    InputOutputError,
    /// The checksum stored in the block at `block_address` does not match the
    /// block's contents.
    InvalidChecksum { block_address: u64 },
    /// The superblock does not start with the filesystem's magic number.
    InvalidMagicNumber,
    /// The superblock names a version that is not supported.
    UnsupportedVersion { found_version: u32 },
    /// There are no free blocks left to satisfy an allocation.
    OutOfSpace,
    /// The file, directory or tree entry does not exist.
    NotFound,
    /// A directory operation was attempted on something else.
    NotADirectory,
    /// A file operation was attempted on something else.
    NotARegularFile,
    /// The name to be created already exists in the parent directory.
    AlreadyExists,
    /// The directory to be removed still has entries.
    DirectoryNotEmpty,
    /// An argument lies outside its valid range.
    InvalidArgument,
    /// On-disk metadata is internally inconsistent.
    CorruptedStructure,
    /// The operation is not supported by this version of the filesystem.
    NotSupported,
}

/// The character for the decimal digit `digit`.
pub open spec fn digit_char(digit: nat) -> char {
    (0x30 + digit) as char
}

/// The decimal representation of `value`, without leading zeros.
pub open spec fn decimal(value: nat) -> Seq<char>
    decreases value,
{
    if value < 10 {
        seq![digit_char(value)]
    } else {
        decimal(value / 10) + seq![digit_char(value % 10)]
    }
}

fn digit_text(digit: u64) -> (text: &'static str)
    requires
        digit < 10,
    ensures
        text@ == seq![digit_char(digit as nat)],
{
    proof {
        reveal_strlit("0");
        reveal_strlit("1");
        reveal_strlit("2");
        reveal_strlit("3");
        reveal_strlit("4");
        reveal_strlit("5");
        reveal_strlit("6");
        reveal_strlit("7");
        reveal_strlit("8");
        reveal_strlit("9");
    }
    let text = match digit {
        0 => "0",
        1 => "1",
        2 => "2",
        3 => "3",
        4 => "4",
        5 => "5",
        6 => "6",
        7 => "7",
        8 => "8",
        _ => "9",
    };
    assert(text@ =~= seq![digit_char(digit as nat)]);
    text
}

fn append_decimal(output: &mut String, value: u64)
    ensures
        final(output)@ == old(output)@ + decimal(value as nat),
    decreases value,
{
    if value >= 10 {
        append_decimal(output, value / 10);
    }
    output.append(digit_text(value % 10));
    assert(output@ =~= old(output)@ + decimal(value as nat));
}

impl BafsError {
    /// The message that describes this error to a user.
    pub open spec fn message(self) -> Seq<char> {
        match self {
            BafsError::InputOutputError => "I/O error on the underlying block device"@,
            BafsError::InvalidChecksum { block_address } => "CRC32C checksum mismatch on block "@
                + decimal(block_address as nat),
            BafsError::InvalidMagicNumber => "not a BAFS filesystem (invalid magic number)"@,
            BafsError::UnsupportedVersion { found_version } => "unsupported BAFS version "@
                + decimal(found_version as nat) + " (this implementation supports v1 only)"@,
            BafsError::OutOfSpace => "no free space left on the filesystem"@,
            BafsError::NotFound => "no such file or directory"@,
            BafsError::NotADirectory => "not a directory"@,
            BafsError::NotARegularFile => "not a regular file"@,
            BafsError::AlreadyExists => "file or directory already exists"@,
            BafsError::DirectoryNotEmpty => "directory not empty"@,
            BafsError::InvalidArgument => "invalid argument"@,
            BafsError::CorruptedStructure => "filesystem metadata is corrupted"@,
            BafsError::NotSupported => "operation not supported"@,
        }
    }

    /// The message that describes this error to a user.
    pub fn to_string(&self) -> (text: String)
        ensures
            text@ == self.message(),
    {
        match self {
            BafsError::InputOutputError => "I/O error on the underlying block device".to_owned(),
            BafsError::InvalidChecksum { block_address } => {
                let mut text = "CRC32C checksum mismatch on block ".to_owned();
                append_decimal(&mut text, *block_address);
                text
            },
            BafsError::InvalidMagicNumber =>
                "not a BAFS filesystem (invalid magic number)".to_owned(),
            BafsError::UnsupportedVersion { found_version } => {
                let mut text = "unsupported BAFS version ".to_owned();
                append_decimal(&mut text, *found_version as u64);
                text.append(" (this implementation supports v1 only)");
                text
            },
            BafsError::OutOfSpace => "no free space left on the filesystem".to_owned(),
            BafsError::NotFound => "no such file or directory".to_owned(),
            BafsError::NotADirectory => "not a directory".to_owned(),
            BafsError::NotARegularFile => "not a regular file".to_owned(),
            BafsError::AlreadyExists => "file or directory already exists".to_owned(),
            BafsError::DirectoryNotEmpty => "directory not empty".to_owned(),
            BafsError::InvalidArgument => "invalid argument".to_owned(),
            BafsError::CorruptedStructure => "filesystem metadata is corrupted".to_owned(),
            BafsError::NotSupported => "operation not supported".to_owned(),
        }
    }
}

/// The number that decimal digits denote.
pub open spec fn number_of(text: Seq<char>) -> int
    decreases text.len(),
{
    if text.len() == 0 {
        0
    } else {
        10 * number_of(text.drop_last()) + (text.last() as int - '0' as int)
    }
}

/// The decimal representation of a number denotes it: it is made of digits, and does
/// not begin with a zero where it has more than one.
pub proof fn law_decimal_denotes_the_number(value: nat)
    ensures
        number_of(decimal(value)) == value,
        decimal(value).len() > 0,
        forall|i: int|
            0 <= i < decimal(value).len() ==> '0' as int <= (#[trigger] decimal(value)[i]) as int
                <= '9' as int,
        decimal(value)[0] == '0' ==> value == 0,
    decreases value,
{
    let digit = digit_char(value % 10);
    if value < 10 {
        assert(seq![digit_char(value)].drop_last() =~= Seq::empty());
        assert(number_of(Seq::<char>::empty()) == 0);
    } else {
        let front = decimal(value / 10);
        law_decimal_denotes_the_number(value / 10);
        assert(decimal(value).drop_last() =~= front);
        assert(decimal(value).last() == digit);
        assert(decimal(value)[0] == front[0]);
        assert forall|i: int| 0 <= i < decimal(value).len() implies '0' as int <= (
        #[trigger] decimal(value)[i]) as int <= '9' as int by {
            if i < front.len() {
                assert(decimal(value)[i] == front[i]);
            }
        }
    }
}

/// The messages that speak of a block or a version tell its number.
pub proof fn law_messages_tell_the_number(block_address: u64, found_version: u32)
    ensures
        number_of(BafsError::InvalidChecksum { block_address }.message().skip(34))
            == block_address,
        ({
            let message = BafsError::UnsupportedVersion { found_version }.message();
            number_of(message.subrange(25, message.len() - 39)) == found_version
        }),
{
    reveal_strlit("CRC32C checksum mismatch on block ");
    reveal_strlit("unsupported BAFS version ");
    reveal_strlit(" (this implementation supports v1 only)");
    law_decimal_denotes_the_number(block_address as nat);
    law_decimal_denotes_the_number(found_version as nat);
    let message = BafsError::UnsupportedVersion { found_version }.message();
    assert(BafsError::InvalidChecksum { block_address }.message().skip(34) =~= decimal(
        block_address as nat,
    ));
    assert(message.subrange(25, message.len() - 39) =~= decimal(found_version as nat));
}

} // verus!
