//! Minimal reader of .npy files that hold float64 2-D arrays (little-endian),
//! enough to load the `cam4_H_cam1.npy` homography.

use vstd::prelude::*;
use vstd::slice::slice_subrange;
use vstd::string::StringExecFns;

use crate::text::{
    chars_of, contains, decimal, decode_lossy, equal, find, find_in, index_of, is_digit,
    is_white_space, law_decimal_is_read_back, law_find_is_first, law_trimming_start,
    lemma_decimal, lemma_find_is, lemma_index_is, lemma_index_none, lemma_trimmed_keeps,
    reads_at, number, parse, position, string_from_chars, to_decimal, trim,
    trim_end_of, trim_start_of, trimmed, trimmed_end, trimmed_start, utf8_lossy, Class,
};

verus! {

/// Why bytes are not a float64 2-D array.
#[derive(Debug)]
pub enum NpyError {
    /// They do not begin as a .npy file does.
    NotNumpy,
    /// The version of the format is not known.
    UnsupportedVersion(u8),
    /// The element type is not a float.
    NotFloat(String),
    /// The shape does not have two dimensions.
    NotTwoDimensional(String),
    /// There are not as many elements as the shape says.
    LengthMismatch,
}

impl NpyError {
    /// The text for the user.
    pub open spec fn text(self, path: Seq<char>) -> Seq<char> {
        match self {
            NpyError::NotNumpy => "not a numpy file: "@ + path,
            NpyError::UnsupportedVersion(version) => "unsupported npy version "@ + decimal(
                version as nat,
            ),
            NpyError::NotFloat(descr) => "expected float dtype, got "@ + descr@,
            NpyError::NotTwoDimensional(shape) => "expected 2-D array, got shape "@ + shape@,
            NpyError::LengthMismatch => "array length mismatch"@,
        }
    }

    /// The text for the user, of a file at `path`.
    pub fn message(&self, path: &str) -> (s: String)
        ensures
            s@ == self.text(path@),
    {
        match self {
            NpyError::NotNumpy => "not a numpy file: ".to_owned().concat(path),
            NpyError::UnsupportedVersion(version) => {
                "unsupported npy version ".to_owned().concat(to_decimal(*version as u64).as_str())
            },
            NpyError::NotFloat(descr) => {
                "expected float dtype, got ".to_owned().concat(descr.as_str())
            },
            NpyError::NotTwoDimensional(shape) => {
                "expected 2-D array, got shape ".to_owned().concat(shape.as_str())
            },
            NpyError::LengthMismatch => "array length mismatch".to_owned(),
        }
    }
}

/// How deep the end of the first `n` characters lies in round brackets.
pub open spec fn depth(s: Seq<char>, n: int) -> int
    decreases n,
{
    if n <= 0 {
        0
    } else if s[n - 1] == '(' {
        depth(s, n - 1) + 1
    } else if s[n - 1] == ')' {
        depth(s, n - 1) - 1
    } else {
        depth(s, n - 1)
    }
}

/// The first index from `i` on at which no bracket is open any more.
pub open spec fn closing_from(s: Seq<char>, i: int) -> Option<int>
    decreases s.len() - i,
{
    if i >= s.len() {
        None
    } else if depth(s, i + 1) == 0 {
        Some(i)
    } else {
        closing_from(s, i + 1)
    }
}

/// What stands in front of the value of a key: the key in single quotes and a
/// colon.
pub open spec fn label(key: Seq<char>) -> Seq<char> {
    seq!['\''] + key + seq!['\'', ':']
}

/// The value that a text begins with: a quoted string with its quotes, a tuple
/// with its brackets, or a bare keyword up to a comma or a closing brace. A
/// string must end; a tuple that does not end goes up to the end of the text.
pub open spec fn value(rest: Seq<char>) -> Option<Seq<char>> {
    if rest.len() > 0 && rest[0] == '\'' {
        match index_of(rest.skip(1), Class::Only('\'')) {
            Some(i) => Some(rest.take(i + 2)),
            None => None,
        }
    } else if rest.len() > 0 && rest[0] == '(' {
        match closing_from(rest, 0) {
            Some(i) => Some(rest.take(i + 1)),
            None => Some(trimmed(rest)),
        }
    } else {
        match index_of(rest, Class::Either(',', '}')) {
            Some(i) => Some(trimmed(rest.take(i))),
            None => Some(trimmed(rest)),
        }
    }
}

/// The value of a key in a header: what follows the first label of the key and
/// the white space after it.
pub open spec fn entry(header: Seq<char>, key: Seq<char>) -> Option<Seq<char>> {
    match find_in(header, label(key)) {
        Some(i) => value(trimmed_start(header.skip(i + label(key).len()), Class::WhiteSpace)),
        None => None,
    }
}

/// The closing bracket of the tuple that the text begins with.
fn closing(s: &[char]) -> (r: Option<usize>)
    requires
        s@.len() > 0,
        s@[0] == '(',
    ensures
        r is Some <==> closing_from(s@, 0) is Some,
        r matches Some(i) ==> closing_from(s@, 0) == Some(i as int) && i < s@.len(),
{
    let mut open: usize = 0;
    let mut i: usize = 0;
    while i < s.len()
        invariant
            i <= s@.len(),
            s@.len() > 0,
            s@[0] == '(',
            i > 0 ==> open > 0,
            open <= i,
            open == depth(s@, i as int),
            closing_from(s@, 0) == closing_from(s@, i as int),
        decreases s@.len() - i,
    {
        let c: char = s[i];
        if c == '(' {
            open = open + 1;
        } else if c == ')' {
            open = open - 1;
            if open == 0 {
                return Some(i);
            }
        }
        i = i + 1;
    }
    None
}

fn value_of(rest: &[char]) -> (r: Option<String>)
    ensures
        r is Some <==> value(rest@) is Some,
        r matches Some(v) ==> value(rest@) == Some(v@),
{
    if rest.len() > 0 && rest[0] == '\'' {
        let inner = slice_subrange(rest, 1, rest.len());
        assert(inner@ =~= rest@.skip(1));
        match position(inner, Class::Only('\'')) {
            Some(i) => {
                let quoted = slice_subrange(rest, 0, i + 2);
                assert(quoted@ =~= rest@.take(i + 2));
                Some(string_from_chars(quoted))
            },
            None => None,
        }
    } else if rest.len() > 0 && rest[0] == '(' {
        match closing(rest) {
            Some(i) => {
                let tuple = slice_subrange(rest, 0, i + 1);
                assert(tuple@ =~= rest@.take(i + 1));
                Some(string_from_chars(tuple))
            },
            None => Some(string_from_chars(trim(rest))),
        }
    } else {
        match position(rest, Class::Either(',', '}')) {
            Some(i) => {
                let keyword = slice_subrange(rest, 0, i);
                assert(keyword@ =~= rest@.take(i as int));
                Some(string_from_chars(trim(keyword)))
            },
            None => Some(string_from_chars(trim(rest))),
        }
    }
}

/// The value of a key in a header.
pub fn extract(header: &str, key: &str) -> (r: Option<String>)
    ensures
        r is Some <==> entry(header@, key@) is Some,
        r matches Some(v) ==> entry(header@, key@) == Some(v@),
{
    let chars: Vec<char> = chars_of(header);
    let mut needle: Vec<char> = Vec::new();
    needle.push('\'');
    let mut key_chars: Vec<char> = chars_of(key);
    needle.append(&mut key_chars);
    needle.push('\'');
    needle.push(':');
    assert(needle@ =~= label(key@));
    match find(chars.as_slice(), needle.as_slice()) {
        Some(i) => {
            let len: usize = chars.len();
            let rest = slice_subrange(chars.as_slice(), i + needle.len(), len);
            assert(rest@ =~= header@.skip(i + label(key@).len()));
            value_of(trim_start_of(rest, Class::WhiteSpace))
        },
        None => None,
    }
}

/// The number that bytes stand for, the lowest first.
pub open spec fn little_endian(bytes: Seq<u8>) -> int
    decreases bytes.len(),
{
    if bytes.len() == 0 {
        0
    } else {
        bytes[0] + 256 * little_endian(bytes.skip(1))
    }
}

/// What a .npy file begins with.
pub open spec fn magic() -> Seq<u8> {
    seq![0x93u8, 0x4e, 0x55, 0x4d, 0x50, 0x59]
}

pub open spec fn has_magic(buf: Seq<u8>) -> bool {
    buf.len() >= 6 && buf.take(6) == magic()
}

/// How many bytes hold the length of the header, if the version is known.
pub open spec fn length_size(version: u8) -> Option<int> {
    if version == 1 {
        Some(2)
    } else if version == 2 || version == 3 {
        Some(4)
    } else {
        None
    }
}

/// Where the header begins.
pub open spec fn header_start(buf: Seq<u8>) -> int {
    8 + length_size(buf[6])->0
}

/// Where the header ends and the data begin.
pub open spec fn data_start(buf: Seq<u8>) -> int {
    header_start(buf) + little_endian(buf.subrange(8, header_start(buf)))
}

/// Whether the bytes reach as far as the file says: up to the magic, and if that
/// and the version are right, up to the end of the header.
pub open spec fn is_framed(buf: Seq<u8>) -> bool {
    &&& buf.len() >= 6
    &&& has_magic(buf) ==> {
        &&& buf.len() >= 7
        &&& length_size(buf[6]) is Some ==> buf.len() >= header_start(buf) && buf.len()
            >= data_start(buf)
    }
}

/// The value of a key in a header; nothing if there is none.
pub open spec fn entry_or_empty(header: Seq<char>, key: Seq<char>) -> Seq<char> {
    match entry(header, key) {
        Some(v) => v,
        None => Seq::empty(),
    }
}

/// Whether an element type is a float.
pub open spec fn is_float(descr: Seq<char>) -> bool {
    find_in(descr, "f8"@) is Some || find_in(descr, "f4"@) is Some
}

/// The dimension that a piece of a shape gives, if it is a number.
pub open spec fn piece_dims(piece: Seq<char>) -> Seq<int> {
    match number(trimmed(piece), usize::MAX as int) {
        Some(n) => seq![n],
        None => Seq::empty(),
    }
}

/// The dimensions in a list with commas. What is not a number is passed over.
pub open spec fn listed_dims(s: Seq<char>) -> Seq<int>
    decreases s.len(),
    via listed_dims_decreases
{
    match index_of(s, Class::Only(',')) {
        Some(i) => piece_dims(s.take(i)) + listed_dims(s.skip(i + 1)),
        None => piece_dims(s),
    }
}

#[via_fn]
proof fn listed_dims_decreases(s: Seq<char>) {
    lemma_index_bound(s, Class::Only(','), 0);
}

proof fn lemma_index_bound(s: Seq<char>, class: Class, i: int)
    requires
        0 <= i,
    ensures
        crate::text::index_from(s, class, i) matches Some(k) ==> i <= k < s.len(),
    decreases s.len() - i,
{
    if i < s.len() {
        lemma_index_bound(s, class, i + 1);
    }
}

/// The dimensions of a shape.
pub open spec fn dims(shape: Seq<char>) -> Seq<int> {
    listed_dims(trimmed_end(trimmed_start(shape, Class::Only('(')), Class::Only(')')))
}

/// The bits of the floats that data hold. A rest that is too short for a float is
/// left out.
pub open spec fn words(data: Seq<u8>) -> Seq<u64> {
    Seq::new(
        data.len() / 8,
        |i: int| little_endian(data.subrange(8 * i, 8 * i + 8)) as u64,
    )
}

/// Whether the array that a header describes can be held in memory.
pub open spec fn fits(header: Seq<char>) -> bool {
    let shape = dims(entry_or_empty(header, "shape"@));
    is_float(entry_or_empty(header, "descr"@)) && shape.len() == 2 ==> 8 * (shape[0] * shape[1])
        <= isize::MAX
}

/// What reading an array gives: the bits of its floats, row by row, and the
/// numbers of rows and columns.
pub type Array = (Vec<u64>, usize, usize);

/// Whether the elements that follow a header are stored column by column.
pub open spec fn is_by_column(header: Seq<char>) -> bool {
    entry_or_empty(header, "fortran_order"@) == "True"@
}

/// The elements of an array row by row, where they are stored in that order or
/// column by column.
pub open spec fn row_major(w: Seq<u64>, rows: int, cols: int, by_column: bool) -> Seq<u64> {
    if by_column {
        Seq::new(w.len(), |k: int| w[(k % cols) * rows + k / cols])
    } else {
        w
    }
}

/// What the data after a header are read as.
pub open spec fn is_reading(
    header: Seq<char>,
    data: Seq<u8>,
    r: Result<Array, NpyError>,
) -> bool {
    let descr = entry_or_empty(header, "descr"@);
    let shape = entry_or_empty(header, "shape"@);
    if !is_float(descr) {
        r matches Err(NpyError::NotFloat(d)) && d@ == descr
    } else if dims(shape).len() != 2 {
        r matches Err(NpyError::NotTwoDimensional(s)) && s@ == shape
    } else if words(data).len() != dims(shape)[0] * dims(shape)[1] {
        r matches Err(NpyError::LengthMismatch)
    } else {
        &&& r matches Ok((bits, rows, cols))
        &&& rows == dims(shape)[0]
        &&& cols == dims(shape)[1]
        &&& bits@ == row_major(words(data), rows as int, cols as int, is_by_column(header))
    }
}

/// What the bytes of a file are read as.
pub open spec fn is_loading(buf: Seq<u8>, r: Result<Array, NpyError>) -> bool {
    if !has_magic(buf) {
        r matches Err(NpyError::NotNumpy)
    } else if length_size(buf[6]) is None {
        r matches Err(NpyError::UnsupportedVersion(version)) && version == buf[6]
    } else {
        is_reading(
            utf8_lossy(buf.subrange(header_start(buf), data_start(buf))),
            buf.skip(data_start(buf)),
            r,
        )
    }
}

/// Whether a file can be read: it reaches as far as it says, and its array can be
/// held in memory.
pub open spec fn can_load(buf: Seq<u8>) -> bool {
    &&& is_framed(buf)
    &&& has_magic(buf) && length_size(buf[6]) is Some ==> fits(
        utf8_lossy(buf.subrange(header_start(buf), data_start(buf))),
    )
}

/// The largest number that can be written in `n` bytes, and one more.
spec fn byte_range(n: nat) -> int
    decreases n,
{
    if n == 0 {
        1
    } else {
        256 * byte_range((n - 1) as nat)
    }
}

proof fn lemma_little_endian_bound(bytes: Seq<u8>)
    ensures
        0 <= little_endian(bytes) < byte_range(bytes.len()),
    decreases bytes.len(),
{
    if bytes.len() > 0 {
        lemma_little_endian_bound(bytes.skip(1));
    }
}

fn from_little_endian(bytes: &[u8]) -> (n: u64)
    requires
        bytes@.len() <= 8,
    ensures
        n == little_endian(bytes@),
{
    let mut n: u64 = 0;
    let mut i: usize = bytes.len();
    while i > 0
        invariant
            i <= bytes@.len() <= 8,
            n == little_endian(bytes@.skip(i as int)),
        decreases i,
    {
        let ghost tail = bytes@.skip(i - 1);
        proof {
            assert(tail.skip(1) =~= bytes@.skip(i as int));
            lemma_little_endian_bound(tail);
            lemma_little_endian_bound(tail.skip(1));
            reveal_with_fuel(byte_range, 9);
        }
        n = bytes[i - 1] as u64 + 256 * n;
        i = i - 1;
    }
    assert(bytes@.skip(0) =~= bytes@);
    n
}

fn extract_or_empty(header: &str, key: &str) -> (v: String)
    ensures
        v@ == entry_or_empty(header@, key@),
{
    match extract(header, key) {
        Some(v) => v,
        None => String::new(),
    }
}

fn parse_dims(shape: &str) -> (r: Vec<usize>)
    ensures
        r@.len() == dims(shape@).len(),
        forall|i: int| 0 <= i < r@.len() ==> #[trigger] r@[i] == dims(shape@)[i],
{
    let chars: Vec<char> = chars_of(shape);
    let list = trim_end_of(
        trim_start_of(chars.as_slice(), Class::Only('(')),
        Class::Only(')'),
    );
    let ghost all = list@;
    let mut rest = list;
    let mut r: Vec<usize> = Vec::new();
    let ghost mut done: Seq<int> = Seq::empty();
    assert(done + listed_dims(rest@) =~= listed_dims(all));
    loop
        invariant
            all == trimmed_end(trimmed_start(shape@, Class::Only('(')), Class::Only(')')),
            done + listed_dims(rest@) == listed_dims(all),
            r@.len() == done.len(),
            forall|i: int| 0 <= i < r@.len() ==> #[trigger] r@[i] == done[i],
        decreases rest@.len(),
    {
        let comma = position(rest, Class::Only(','));
        let (piece, last) = match comma {
            Some(i) => (slice_subrange(rest, 0, i), false),
            None => (rest, true),
        };
        match parse(trim(piece), usize::MAX as u64) {
            Some(n) => r.push(n as usize),
            None => (),
        }
        let ghost before = rest@;
        let ghost found = piece_dims(piece@);
        if let Some(i) = comma {
            let len: usize = rest.len();
            rest = slice_subrange(rest, i + 1, len);
            assert(piece@ =~= before.take(i as int));
            assert(rest@ =~= before.skip(i + 1));
            assert((done + found) + listed_dims(rest@) =~= done + (found + listed_dims(rest@)));
        }
        proof {
            done = done + found;
        }
        if last {
            assert(done =~= listed_dims(all));
            return r;
        }
    }
}

fn read_words(data: &[u8]) -> (r: Vec<u64>)
    ensures
        r@ == words(data@),
{
    let mut r: Vec<u64> = Vec::new();
    let len: usize = data.len();
    let count: usize = len / 8;
    let mut i: usize = 0;
    while i < count
        invariant
            len == data@.len(),
            i <= count,
            count == data@.len() / 8,
            r@ == words(data@).take(i as int),
        decreases count - i,
    {
        let chunk = slice_subrange(data, 8 * i, 8 * i + 8);
        r.push(from_little_endian(chunk));
        assert(r@ =~= words(data@).take(i + 1));
        i = i + 1;
    }
    assert(r@ =~= words(data@));
    r
}

/// The numbers of rows and columns that a header gives, if it describes a 2-D array
/// of floats.
fn parse_header(header: &str) -> (r: Result<(usize, usize), NpyError>)
    ensures
        ({
            let descr = entry_or_empty(header@, "descr"@);
            let shape = entry_or_empty(header@, "shape"@);
            if !is_float(descr) {
                r matches Err(NpyError::NotFloat(d)) && d@ == descr
            } else if dims(shape).len() != 2 {
                r matches Err(NpyError::NotTwoDimensional(s)) && s@ == shape
            } else {
                r matches Ok((rows, cols)) && rows == dims(shape)[0] && cols == dims(shape)[1]
            }
        }),
{
    let descr: String = extract_or_empty(header, "descr");
    let descr_chars: Vec<char> = chars_of(descr.as_str());
    let f8: Vec<char> = chars_of("f8");
    let f4: Vec<char> = chars_of("f4");
    if !contains(descr_chars.as_slice(), f8.as_slice()) && !contains(
        descr_chars.as_slice(),
        f4.as_slice(),
    ) {
        return Err(NpyError::NotFloat(descr));
    }
    let shape: String = extract_or_empty(header, "shape");
    let dims: Vec<usize> = parse_dims(shape.as_str());
    if dims.len() != 2 {
        return Err(NpyError::NotTwoDimensional(shape));
    }
    Ok((dims[0], dims[1]))
}

fn header_is_by_column(header: &str) -> (r: bool)
    ensures
        r == is_by_column(header@),
{
    let order: String = extract_or_empty(header, "fortran_order");
    let order_chars: Vec<char> = chars_of(order.as_str());
    let yes: Vec<char> = chars_of("True");
    equal(order_chars.as_slice(), yes.as_slice())
}

/// Where the element that comes `k`th row by row is stored column by column.
proof fn lemma_stored_at(k: int, rows: int, cols: int)
    requires
        0 <= k < rows * cols,
        0 <= rows,
        0 <= cols,
    ensures
        0 < cols,
        0 <= k % cols < cols,
        0 <= k / cols < rows,
        0 <= (k % cols) * rows,
        (k % cols) * rows + k / cols < rows * cols,
{
    assert(cols > 0) by (nonlinear_arith)
        requires
            0 < rows * cols,
            0 <= rows,
            0 <= cols,
    ;
    vstd::arithmetic::div_mod::lemma_fundamental_div_mod(k, cols);
    vstd::arithmetic::div_mod::lemma_mod_bound(k, cols);
    let (q, m) = (k / cols, k % cols);
    assert(0 <= q < rows) by (nonlinear_arith)
        requires
            k == cols * q + m,
            0 <= m < cols,
            0 <= k < rows * cols,
    ;
    assert(0 <= m * rows && m * rows + rows <= rows * cols) by (nonlinear_arith)
        requires
            0 <= m < cols,
            0 <= rows,
    ;
}

/// The elements row by row that are stored column by column.
fn by_rows(stored: &[u64], rows: usize, cols: usize) -> (r: Vec<u64>)
    requires
        stored@.len() == rows * cols,
    ensures
        r@ == row_major(stored@, rows as int, cols as int, true),
{
    let ghost all = row_major(stored@, rows as int, cols as int, true);
    let mut r: Vec<u64> = Vec::new();
    let len: usize = stored.len();
    let mut k: usize = 0;
    while k < len
        invariant
            k <= len,
            len == stored@.len() == rows * cols,
            all == row_major(stored@, rows as int, cols as int, true),
            r@ == all.take(k as int),
        decreases len - k,
    {
        proof {
            lemma_stored_at(k as int, rows as int, cols as int);
        }
        r.push(stored[(k % cols) * rows + k / cols]);
        assert(r@ =~= all.take(k + 1));
        k = k + 1;
    }
    assert(r@ =~= all);
    r
}

/// Reads the data that a header describes.
pub fn read_f64_2d(header: &str, data: &[u8]) -> (r: Result<Array, NpyError>)
    requires
        fits(header@),
    ensures
        is_reading(header@, data@, r),
{
    match parse_header(header) {
        Err(e) => Err(e),
        Ok((rows, cols)) => {
            let stored: Vec<u64> = read_words(data);
            if stored.len() != rows * cols {
                return Err(NpyError::LengthMismatch);
            }
            let bits: Vec<u64> = if header_is_by_column(header) {
                by_rows(stored.as_slice(), rows, cols)
            } else {
                stored
            };
            Ok((bits, rows, cols))
        },
    }
}

/// Whether the array that a header describes can be held in memory.
fn header_fits(header: &str) -> (r: bool)
    ensures
        r == fits(header@),
{
    match parse_header(header) {
        Err(_) => true,
        Ok((rows, cols)) => {
            assert(0 <= rows * cols <= u128::MAX) by (nonlinear_arith)
                requires
                    0 <= rows <= u64::MAX,
                    0 <= cols <= u64::MAX,
            ;
            rows as u128 * cols as u128 <= (isize::MAX / 8) as u128
        },
    }
}

fn starts_with_magic(buf: &[u8]) -> (r: bool)
    requires
        buf@.len() >= 6,
    ensures
        r == has_magic(buf@),
{
    let r: bool = buf[0] == 0x93 && buf[1] == 0x4e && buf[2] == 0x55 && buf[3] == 0x4d && buf[4]
        == 0x50 && buf[5] == 0x59;
    proof {
        let head = buf@.take(6);
        if r {
            assert(head =~= magic());
        }
        assert(head[0] == buf@[0] && head[1] == buf@[1] && head[2] == buf@[2]);
        assert(head[3] == buf@[3] && head[4] == buf@[4] && head[5] == buf@[5]);
    }
    r
}

fn size_of_length(version: u8) -> (r: Option<usize>)
    ensures
        r is Some <==> length_size(version) is Some,
        r matches Some(n) ==> length_size(version) == Some(n as int),
{
    if version == 1 {
        Some(2)
    } else if version == 2 || version == 3 {
        Some(4)
    } else {
        None
    }
}

/// Reads the bytes of a 2-D float64 .npy file: the bits of its floats, row by row,
/// and its numbers of rows and columns.
pub fn load_f64_2d(buf: &[u8]) -> (r: Result<Array, NpyError>)
    requires
        can_load(buf@),
    ensures
        is_loading(buf@, r),
{
    if !starts_with_magic(buf) {
        return Err(NpyError::NotNumpy);
    }
    match size_of_length(buf[6]) {
        None => Err(NpyError::UnsupportedVersion(buf[6])),
        Some(size) => {
            let start: usize = 8 + size;
            let len: usize = buf.len();
            let length = slice_subrange(buf, 8, start);
            proof {
                lemma_little_endian_bound(length@);
            }
            let data_offset: usize = start + from_little_endian(length) as usize;
            let header: String = decode_lossy(slice_subrange(buf, start, data_offset));
            let data = slice_subrange(buf, data_offset, len);
            assert(data@ =~= buf@.skip(data_start(buf@)));
            read_f64_2d(header.as_str(), data)
        },
    }
}

/// As `load_f64_2d`, for any bytes; `None` if they end before their header does,
/// or if the array does not fit in memory.
pub fn try_load_f64_2d(buf: &[u8]) -> (r: Option<Result<Array, NpyError>>)
    ensures
        r is Some <==> can_load(buf@),
        r matches Some(loaded) ==> is_loading(buf@, loaded),
{
    let len: usize = buf.len();
    if len < 6 {
        return None;
    }
    if starts_with_magic(buf) {
        if len < 7 {
            return None;
        }
        if let Some(size) = size_of_length(buf[6]) {
            let start: usize = 8 + size;
            if len < start {
                return None;
            }
            let length = slice_subrange(buf, 8, start);
            proof {
                lemma_little_endian_bound(length@);
            }
            let header_len: u64 = from_little_endian(length);
            if header_len > (len - start) as u64 {
                return None;
            }
            let data_offset: usize = start + header_len as usize;
            let header: String = decode_lossy(slice_subrange(buf, start, data_offset));
            if !header_fits(header.as_str()) {
                return None;
            }
        }
    }
    Some(load_f64_2d(buf))
}

/// Round brackets around a list that begins and ends with a digit are taken off.
proof fn lemma_brackets(list: Seq<char>)
    requires
        list.len() > 0,
        is_digit(list[0]),
        is_digit(list.last()),
    ensures
        dims(seq!['('] + list + seq![')']) == listed_dims(list),
{
    let shape = seq!['('] + list + seq![')'];
    let open = list + seq![')'];
    assert(shape.skip(1) =~= open);
    assert(open[0] == list[0]);
    assert(trimmed_start(open, Class::Only('(')) == open);
    assert(trimmed_start(shape, Class::Only('(')) == open);
    assert(open.drop_last() =~= list);
    assert(trimmed_end(list, Class::Only(')')) == list);
    assert(trimmed_end(open, Class::Only(')')) == list);
}

/// The digits of a number, after white space or not, give its dimension.
proof fn lemma_piece(n: nat)
    requires
        n <= usize::MAX,
    ensures
        piece_dims(decimal(n)) == seq![n as int],
        piece_dims(seq![' '] + decimal(n)) == seq![n as int],
{
    let d = decimal(n);
    let spaced = seq![' '] + d;
    lemma_decimal(n);
    assert(is_digit(d[0]) && is_digit(d.last()));
    lemma_trimmed_keeps(d);
    assert(spaced.skip(1) =~= d);
    assert(trimmed_start(d, Class::WhiteSpace) == d);
    assert(trimmed_start(spaced, Class::WhiteSpace) == d);
    law_decimal_is_read_back(n, usize::MAX as int);
}

/// A shape written as a pair of numbers is read as these numbers.
pub proof fn law_shape_is_read(rows: nat, cols: nat)
    requires
        rows <= usize::MAX,
        cols <= usize::MAX,
    ensures
        dims(seq!['('] + decimal(rows) + seq![',', ' '] + decimal(cols) + seq![')']) == seq![
            rows as int,
            cols as int,
        ],
{
    let r = decimal(rows);
    let c = decimal(cols);
    let comma = Class::Only(',');
    let tail = seq![' '] + c;
    let list = r + seq![','] + tail;
    lemma_decimal(rows);
    lemma_decimal(cols);
    assert(is_digit(r[0]) && is_digit(c.last()));
    assert(list[0] == r[0] && list.last() == c.last());
    assert(seq!['('] + r + seq![',', ' '] + c + seq![')'] =~= seq!['('] + list + seq![')']);
    lemma_brackets(list);
    assert forall|j: int| 0 <= j < r.len() implies !comma.has(#[trigger] list[j]) by {
        assert(is_digit(r[j]));
    }
    lemma_index_is(list, comma, 0, r.len() as int);
    assert(list.take(r.len() as int) =~= r);
    assert(list.skip((r.len() + 1) as int) =~= tail);
    assert forall|j: int| 0 <= j < tail.len() implies !comma.has(#[trigger] tail[j]) by {
        if j > 0 {
            assert(is_digit(c[j - 1]));
        }
    }
    lemma_index_none(tail, comma, 0);
    lemma_piece(rows);
    lemma_piece(cols);
    assert(listed_dims(tail) == seq![cols as int]);
    assert(seq![rows as int] + seq![cols as int] =~= seq![rows as int, cols as int]);
}

/// The element in row `r` and column `c` of an array comes at the same place of what
/// is read, whether it was stored row by row or column by column.
pub proof fn law_elements_are_read_row_by_row(w: Seq<u64>, rows: int, cols: int, r: int, c: int)
    requires
        0 <= r < rows,
        0 <= c < cols,
        w.len() == rows * cols,
    ensures
        0 <= r * cols + c < w.len(),
        row_major(w, rows, cols, false)[r * cols + c] == w[r * cols + c],
        row_major(w, rows, cols, true)[r * cols + c] == w[c * rows + r],
{
    assert(0 <= r * cols && r * cols + cols <= rows * cols) by (nonlinear_arith)
        requires
            0 <= r < rows,
            0 <= c < cols,
    ;
    assert((r * cols + c) / cols == r && (r * cols + c) % cols == c) by {
        vstd::arithmetic::div_mod::lemma_fundamental_div_mod_converse(r * cols + c, cols, r, c);
    }
}

/// How many opening brackets a text has more than closing ones.
pub open spec fn surplus(s: Seq<char>) -> int {
    s.filter(|c: char| c == '(').len() - s.filter(|c: char| c == ')').len()
}

proof fn lemma_depth(s: Seq<char>, n: int)
    requires
        0 <= n <= s.len(),
    ensures
        depth(s, n) == surplus(s.take(n)),
    decreases n,
{
    reveal(Seq::filter);
    if n > 0 {
        lemma_depth(s, n - 1);
        assert(s.take(n).drop_last() =~= s.take(n - 1));
    }
}

proof fn lemma_closing_is(s: Seq<char>, from: int, i: int)
    requires
        0 <= from <= i < s.len(),
        depth(s, i + 1) == 0,
        forall|j: int| from <= j < i ==> #[trigger] depth(s, j + 1) != 0,
    ensures
        closing_from(s, from) == Some(i),
    decreases i - from,
{
    if from < i {
        assert(depth(s, from + 1) != 0);
        lemma_closing_is(s, from + 1, i);
    }
}

/// A tuple is read up to the bracket that closes it, whatever brackets it has inside and
/// whatever follows.
pub proof fn law_tuple_is_read(inner: Seq<char>, rest: Seq<char>)
    requires
        surplus(inner) == 0,
        forall|n: int| 0 <= n <= inner.len() ==> surplus(#[trigger] inner.take(n)) >= 0,
    ensures
        value(seq!['('] + inner + seq![')'] + rest) == Some(seq!['('] + inner + seq![')']),
{
    let tuple = seq!['('] + inner + seq![')'];
    let s = tuple + rest;
    let end = inner.len() as int + 1;
    assert(s[0] == '(');
    assert forall|n: int| 0 <= n <= inner.len() implies #[trigger] surplus(s.take(n + 1))
        == surplus(inner.take(n)) + 1 by {
        assert(s.take(n + 1) =~= seq!['('] + inner.take(n));
        lemma_surplus_add(seq!['('], inner.take(n));
        lemma_surplus_one('(');
    }
    assert(inner.take(inner.len() as int) =~= inner);
    assert(s.take(end + 1) =~= (seq!['('] + inner) + seq![')']);
    lemma_surplus_add(seq!['('] + inner, seq![')']);
    lemma_surplus_one(')');
    assert(s.take(end) =~= seq!['('] + inner);
    lemma_depth(s, end + 1);
    assert forall|j: int| 0 <= j < end implies #[trigger] depth(s, j + 1) != 0 by {
        lemma_depth(s, j + 1);
        assert(surplus(s.take(j + 1)) == surplus(inner.take(j)) + 1);
    }
    lemma_closing_is(s, 0, end);
    assert(s.take(end + 1) =~= tuple);
}

proof fn lemma_surplus_add(a: Seq<char>, b: Seq<char>)
    ensures
        surplus(a + b) == surplus(a) + surplus(b),
{
    Seq::filter_distributes_over_add(a, b, |c: char| c == '(');
    Seq::filter_distributes_over_add(a, b, |c: char| c == ')');
}

proof fn lemma_surplus_one(c: char)
    ensures
        surplus(seq![c]) == if c == '(' {
            1int
        } else if c == ')' {
            -1
        } else {
            0
        },
{
    reveal_with_fuel(Seq::filter, 2);
    assert(seq![c].drop_last() =~= Seq::<char>::empty());
    assert(seq![c].last() == c);
}

/// A string is read up to the quote that ends it, with both quotes; one without an end is
/// not read.
pub proof fn law_string_is_read(inner: Seq<char>, rest: Seq<char>)
    requires
        !inner.contains('\''),
    ensures
        value(seq!['\''] + inner + seq!['\''] + rest) == Some(seq!['\''] + inner + seq!['\'']),
        value(seq!['\''] + inner) is None,
{
    let quote = Class::Only('\'');
    let string = seq!['\''] + inner + seq!['\''];
    let s = string + rest;
    let after = s.skip(1);
    assert forall|j: int| 0 <= j < inner.len() implies !quote.has(#[trigger] after[j]) by {
        assert(inner.contains(inner[j]));
    }
    assert(after[inner.len() as int] == '\'');
    lemma_index_is(after, quote, 0, inner.len() as int);
    assert(s.take(inner.len() as int + 2) =~= string);
    let open = seq!['\''] + inner;
    assert(open.skip(1) =~= inner);
    assert forall|j: int| 0 <= j < inner.len() implies !quote.has(#[trigger] inner[j]) by {
        assert(inner.contains(inner[j]));
    }
    lemma_index_none(inner, quote, 0);
}

/// A keyword is read up to a comma or a closing brace, or to the end without one, and loses
/// the white space at its ends.
pub proof fn law_keyword_is_read(word: Seq<char>, end: char, rest: Seq<char>)
    requires
        word.len() > 0,
        word[0] != '\'',
        word[0] != '(',
        !word.contains(','),
        !word.contains('}'),
        end == ',' || end == '}',
    ensures
        value(word + seq![end] + rest) == Some(trimmed(word)),
        value(word) == Some(trimmed(word)),
{
    let ends = Class::Either(',', '}');
    let s = word + seq![end] + rest;
    assert(s[0] == word[0]);
    assert forall|j: int| 0 <= j < word.len() implies !ends.has(#[trigger] s[j]) by {
        assert(word.contains(word[j]));
    }
    assert(s[word.len() as int] == end);
    lemma_index_is(s, ends, 0, word.len() as int);
    assert(s.take(word.len() as int) =~= word);
    assert forall|j: int| 0 <= j < word.len() implies !ends.has(#[trigger] word[j]) by {
        assert(word.contains(word[j]));
    }
    lemma_index_none(word, ends, 0);
}

/// The value of a key is what follows the key in quotes, a colon and any white space, where the
/// first two stand first.
pub proof fn law_entry_follows_its_key(
    header: Seq<char>,
    key: Seq<char>,
    tag: Seq<char>,
    before: Seq<char>,
    space: Seq<char>,
    rest: Seq<char>,
)
    requires
        tag == seq!['\''] + key + seq!['\'', ':'],
        header == before + tag + space + rest,
        forall|i: int| 0 <= i < space.len() ==> is_white_space(#[trigger] space[i]),
        rest.len() > 0,
        !is_white_space(rest[0]),
        forall|i: int| 0 <= i < before.len() ==> !#[trigger] reads_at(header, tag, i),
    ensures
        entry(header, key) == value(rest),
{
    assert(label(key) =~= tag);
    assert(reads_at(header, tag, before.len() as int));
    lemma_find_is(header, tag, before.len() as int);
    let spaced = header.skip((before.len() + tag.len()) as int);
    assert(spaced =~= space + rest);
    let n = space.len() as int;
    assert forall|j: int| 0 <= j < n implies Class::WhiteSpace.has(#[trigger] spaced[j]) by {
        assert(is_white_space(space[j]));
    }
    assert(spaced[n] == rest[0]);
    law_trimming_start(spaced, Class::WhiteSpace, n);
    assert(spaced.skip(n) =~= rest);
}

/// A header without a key in quotes and a colon has no value for that key.
pub proof fn law_no_entry_without_key(header: Seq<char>, key: Seq<char>, tag: Seq<char>)
    requires
        tag == seq!['\''] + key + seq!['\'', ':'],
        forall|i: int| !#[trigger] reads_at(header, tag, i),
    ensures
        entry(header, key) is None,
{
    assert(label(key) =~= tag);
    law_find_is_first(header, tag);
}

/// The elements of an array are eight bytes each, the lowest first.
pub proof fn law_words_are_little_endian(data: Seq<u8>, i: int)
    requires
        0 <= i < data.len() / 8,
    ensures
        words(data).len() == data.len() / 8,
        words(data)[i] == data[8 * i] + 0x100 * data[8 * i + 1] + 0x1_0000 * data[8 * i + 2]
            + 0x100_0000 * data[8 * i + 3] + 0x1_0000_0000 * data[8 * i + 4] + 0x100_0000_0000
            * data[8 * i + 5] + 0x1_0000_0000_0000 * data[8 * i + 6] + 0x100_0000_0000_0000 * data[8
            * i + 7],
{
    let w = data.subrange(8 * i, 8 * i + 8);
    lemma_little_endian_bound(w);
    reveal_with_fuel(byte_range, 9);
    lemma_little_endian_parts(w, 0);
    lemma_little_endian_parts(w, 1);
    lemma_little_endian_parts(w, 2);
    lemma_little_endian_parts(w, 3);
    lemma_little_endian_parts(w, 4);
    lemma_little_endian_parts(w, 5);
    lemma_little_endian_parts(w, 6);
    lemma_little_endian_parts(w, 7);
    assert(w.skip(0) =~= w);
    assert(w.skip(8) =~= Seq::<u8>::empty());
}

proof fn lemma_little_endian_parts(bytes: Seq<u8>, k: int)
    requires
        0 <= k < bytes.len(),
    ensures
        little_endian(bytes.skip(k)) == bytes[k] + 256 * little_endian(bytes.skip(k + 1)),
{
    assert(bytes.skip(k).skip(1) =~= bytes.skip(k + 1));
}

/// Whether bytes begin as a .npy file does.
pub open spec fn begins_as_npy(buf: Seq<u8>) -> bool {
    &&& buf.len() >= 6
    &&& buf[0] == 0x93
    &&& buf[1] == 0x4e
    &&& buf[2] == 0x55
    &&& buf[3] == 0x4d
    &&& buf[4] == 0x50
    &&& buf[5] == 0x59
}

proof fn lemma_begins_as_npy(buf: Seq<u8>)
    requires
        buf.len() >= 6,
    ensures
        begins_as_npy(buf) <==> has_magic(buf),
{
    let head = buf.take(6);
    if begins_as_npy(buf) {
        assert(head =~= magic());
    }
    assert(head[0] == buf[0] && head[1] == buf[1] && head[2] == buf[2]);
    assert(head[3] == buf[3] && head[4] == buf[4] && head[5] == buf[5]);
}

/// Where the data of a file begin: in version 1 after a length of two bytes and a header of
/// that length, in versions 2 and 3 after one of four bytes, the lowest first.
pub proof fn law_header_has_its_length(buf: Seq<u8>)
    requires
        buf.len() >= 12,
    ensures
        buf[6] == 1 ==> header_start(buf) == 10 && data_start(buf) == 10 + buf[8] + 0x100 * buf[9],
        buf[6] == 2 || buf[6] == 3 ==> header_start(buf) == 12 && data_start(buf) == 12 + buf[8]
            + 0x100 * buf[9] + 0x1_0000 * buf[10] + 0x100_0000 * buf[11],
        length_size(buf[6]) is Some <==> 1 <= buf[6] <= 3,
{
    let two = buf.subrange(8, 10);
    let four = buf.subrange(8, 12);
    lemma_little_endian_parts(two, 0);
    lemma_little_endian_parts(two, 1);
    assert(two.skip(0) =~= two && two.skip(2) =~= Seq::<u8>::empty());
    lemma_little_endian_parts(four, 0);
    lemma_little_endian_parts(four, 1);
    lemma_little_endian_parts(four, 2);
    lemma_little_endian_parts(four, 3);
    assert(four.skip(0) =~= four && four.skip(4) =~= Seq::<u8>::empty());
}

/// A file with another beginning is no .npy file, and one with a version other than 1, 2 and
/// 3 is not supported. Any other is read by its header, of the length that it gives, and by
/// the data after it.
pub proof fn law_file_is_header_and_data(buf: Seq<u8>, r: Result<Array, NpyError>, size: int, len: int)
    requires
        buf.len() >= 6,
        is_loading(buf, r),
    ensures
        !begins_as_npy(buf) ==> r matches Err(NpyError::NotNumpy),
        begins_as_npy(buf) && buf.len() >= 7 && !(1 <= buf[6] <= 3) ==> (r matches Err(
            NpyError::UnsupportedVersion(v),
        ) && v == buf[6]),
        begins_as_npy(buf) && buf.len() >= 12 && 1 <= buf[6] <= 3 && size == (if buf[6] == 1 {
            2int
        } else {
            4
        }) && len == (if buf[6] == 1 {
            buf[8] + 0x100 * buf[9]
        } else {
            buf[8] + 0x100 * buf[9] + 0x1_0000 * buf[10] + 0x100_0000 * buf[11]
        }) && 8 + size + len <= buf.len() ==> is_reading(
            utf8_lossy(buf.subrange(8 + size, 8 + size + len)),
            buf.skip(8 + size + len),
            r,
        ),
{
    lemma_begins_as_npy(buf);
    if buf.len() >= 12 {
        law_header_has_its_length(buf);
    }
}

/// A file can be read if it begins otherwise or has another version, and else if it reaches
/// to the end of its header and its array fits in memory. A file of fewer than six bytes
/// cannot.
pub proof fn law_whole_files_can_be_read(buf: Seq<u8>)
    ensures
        buf.len() < 6 ==> !can_load(buf),
        buf.len() >= 6 && !begins_as_npy(buf) ==> can_load(buf),
        buf.len() >= 7 && begins_as_npy(buf) && !(1 <= buf[6] <= 3) ==> can_load(buf),
        buf.len() >= 12 && begins_as_npy(buf) && buf[6] == 1 ==> (can_load(buf) <==> {
            let end = 10 + buf[8] + 0x100 * buf[9];
            end <= buf.len() && fits(utf8_lossy(buf.subrange(10, end)))
        }),
        buf.len() >= 12 && begins_as_npy(buf) && 2 <= buf[6] <= 3 ==> (can_load(buf) <==> {
            let end = 12 + buf[8] + 0x100 * buf[9] + 0x1_0000 * buf[10] + 0x100_0000 * buf[11];
            end <= buf.len() && fits(utf8_lossy(buf.subrange(12, end)))
        }),
{
    if buf.len() >= 6 {
        lemma_begins_as_npy(buf);
    }
    if buf.len() >= 12 {
        law_header_has_its_length(buf);
    }
}

/// An array that is read has as many elements as its rows and columns say, and the element in
/// row `i` and column `j` is the one that the file holds there, row by row or column by
/// column.
pub proof fn law_elements_are_those_of_the_file(
    header: Seq<char>,
    data: Seq<u8>,
    bits: Vec<u64>,
    rows: usize,
    cols: usize,
    i: int,
    j: int,
)
    requires
        is_reading(header, data, Ok((bits, rows, cols))),
        0 <= i < rows,
        0 <= j < cols,
    ensures
        bits@.len() == rows * cols == data.len() / 8,
        entry(header, "fortran_order"@) == Some("True"@) ==> bits@[i * cols + j] == words(data)[j
            * rows + i],
        entry(header, "fortran_order"@) != Some("True"@) ==> bits@[i * cols + j] == words(data)[i
            * cols + j],
        dims(entry_or_empty(header, "shape"@)) == seq![rows as int, cols as int],
{
    let w = words(data);
    reveal_strlit("True");
    law_elements_are_read_row_by_row(w, rows as int, cols as int, i, j);
    assert(dims(entry_or_empty(header, "shape"@)) =~= seq![rows as int, cols as int]);
}

/// An array that is read has a float type and two dimensions, whose product is the number of
/// its elements; where one of these fails there is an error, the first that does.
pub proof fn law_reading_succeeds_on_float_matrices(
    header: Seq<char>,
    data: Seq<u8>,
    r: Result<Array, NpyError>,
)
    requires
        is_reading(header, data, r),
    ensures
        ({
            let descr = entry_or_empty(header, "descr"@);
            let shape = dims(entry_or_empty(header, "shape"@));
            let float = (exists|i: int| #[trigger] reads_at(descr, "f8"@, i)) || (exists|i: int|
                 #[trigger] reads_at(descr, "f4"@, i));
            &&& r is Ok <==> float && shape.len() == 2 && data.len() / 8 == shape[0] * shape[1]
            &&& (r matches Err(NpyError::NotFloat(_))) <==> !float
            &&& (r matches Err(NpyError::NotTwoDimensional(_))) <==> float && shape.len() != 2
        }),
{
    let descr = entry_or_empty(header, "descr"@);
    law_find_is_first(descr, "f8"@);
    law_find_is_first(descr, "f4"@);
    if find_in(descr, "f8"@) is Some {
        assert(reads_at(descr, "f8"@, find_in(descr, "f8"@)->0));
    }
    if find_in(descr, "f4"@) is Some {
        assert(reads_at(descr, "f4"@, find_in(descr, "f4"@)->0));
    }
    assert(is_float(descr) <==> (exists|i: int| #[trigger] reads_at(descr, "f8"@, i)) || (exists|
        i: int,
    | #[trigger] reads_at(descr, "f4"@, i)));
}

/// A list is read piece by piece: what comes before the first comma gives its number, or
/// nothing if it is none, and the rest gives its own.
pub proof fn law_list_is_read_piece_by_piece(piece: Seq<char>, rest: Seq<char>)
    requires
        !piece.contains(','),
    ensures
        listed_dims(piece.push(',') + rest) == listed_dims(piece) + listed_dims(rest),
        listed_dims(piece) == match number(trimmed(piece), usize::MAX as int) {
            Some(n) => seq![n],
            None => Seq::empty(),
        },
{
    let comma = Class::Only(',');
    let s = piece.push(',') + rest;
    assert forall|j: int| 0 <= j < piece.len() implies !comma.has(#[trigger] s[j]) by {
        assert(piece.contains(piece[j]));
    }
    assert forall|j: int| 0 <= j < piece.len() implies !comma.has(#[trigger] piece[j]) by {
        assert(piece.contains(piece[j]));
    }
    assert(s[piece.len() as int] == ',');
    lemma_index_is(s, comma, 0, piece.len() as int);
    lemma_index_none(piece, comma, 0);
    assert(s.take(piece.len() as int) =~= piece);
    assert(s.skip((piece.len() + 1) as int) =~= rest);
}

/// A tuple that is never closed is read to the end of the text.
pub proof fn law_open_tuple_is_read_to_the_end(inner: Seq<char>)
    requires
        forall|n: int| 0 <= n <= inner.len() ==> surplus(#[trigger] inner.take(n)) >= 0,
    ensures
        value(seq!['('] + inner) == Some(trimmed(seq!['('] + inner)),
{
    let s = seq!['('] + inner;
    assert forall|j: int| 0 <= j < s.len() implies #[trigger] depth(s, j + 1) != 0 by {
        lemma_depth(s, j + 1);
        assert(s.take(j + 1) =~= seq!['('] + inner.take(j));
        lemma_surplus_add(seq!['('], inner.take(j));
        lemma_surplus_one('(');
    }
    lemma_no_closing(s, 0);
}

proof fn lemma_no_closing(s: Seq<char>, from: int)
    requires
        0 <= from,
        forall|j: int| from <= j < s.len() ==> #[trigger] depth(s, j + 1) != 0,
    ensures
        closing_from(s, from) is None,
    decreases s.len() - from,
{
    if from < s.len() {
        assert(depth(s, from + 1) != 0);
        lemma_no_closing(s, from + 1);
    }
}

} // verus!
