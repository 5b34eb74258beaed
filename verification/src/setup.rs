use vstd::prelude::*;

verus! {

/// Why a menu answer is not a number.
#[derive(Clone, Copy, Debug, PartialEq, Eq, Structural)]
pub enum ChoiceError {
    /// Nothing was typed.
    Empty,
    /// Something other than a digit was typed.
    InvalidDigit,
    /// Zero where zero is not a value.
    Zero,
    /// The number does not fit.
    Overflow,
}

/// A character with the Unicode `White_Space` property (the 25 code points
/// that `char::is_whitespace` accepts).
pub open spec fn is_white_space(c: char) -> bool {
    ||| '\u{9}' <= c <= '\u{d}'
    ||| c == ' '
    ||| c == '\u{85}'
    ||| c == '\u{a0}'
    ||| c == '\u{1680}'
    ||| '\u{2000}' <= c <= '\u{200a}'
    ||| c == '\u{2028}'
    ||| c == '\u{2029}'
    ||| c == '\u{202f}'
    ||| c == '\u{205f}'
    ||| c == '\u{3000}'
}

/// The text without its leading white space.
pub open spec fn trim_start(s: Seq<char>) -> Seq<char>
    decreases s.len(),
{
    if s.len() > 0 && is_white_space(s[0]) {
        trim_start(s.drop_first())
    } else {
        s
    }
}

/// The text without its trailing white space.
pub open spec fn trim_end(s: Seq<char>) -> Seq<char>
    decreases s.len(),
{
    if s.len() > 0 && is_white_space(s.last()) {
        trim_end(s.drop_last())
    } else {
        s
    }
}

/// The line with leading and trailing white space removed.
pub open spec fn trimmed(s: Seq<char>) -> Seq<char> {
    trim_end(trim_start(s))
}

/// `str::trim`: the line without its leading and trailing white space
/// (characters with the Unicode `White_Space` property).
#[verifier::external_body]
fn trim_line(line: &str) -> (r: &str)
    ensures
        r@ == trimmed(line@),
{
    line.trim()
}

pub open spec fn is_digit(c: char) -> bool {
    '0' <= c <= '9'
}

/// Value of a string of decimal digits.
pub open spec fn decimal_value(s: Seq<char>) -> int
    decreases s.len(),
{
    if s.len() == 0 {
        0
    } else {
        decimal_value(s.drop_last()) * 10 + (s.last() as int - '0' as int)
    }
}

/// The digits of a number: the text without one leading `+`.
pub open spec fn unsigned_digits(s: Seq<char>) -> Seq<char> {
    if s.len() > 0 && s[0] == '+' {
        s.drop_first()
    } else {
        s
    }
}

/// `s` reads as a `usize` in decimal: an optional `+`, then at least one
/// digit and nothing else, of a value that fits.
pub open spec fn reads_as_usize(s: Seq<char>) -> bool {
    let d = unsigned_digits(s);
    &&& d.len() > 0
    &&& forall|i: int| 0 <= i < d.len() ==> is_digit(#[trigger] d[i])
    &&& decimal_value(d) <= usize::MAX
}

/// `str::parse::<usize>`: `Ok` with the value exactly when the text reads as
/// a `usize` in decimal; the error kind `Empty` exactly when the text is
/// empty; `InvalidDigit` when nothing or a non-digit follows the optional
/// `+`; `Overflow` when only digits follow it but their value is too large.
/// For other texts (digits, then a non-digit) the kind depends on whether the
/// digits before the first non-digit already overflow, and is left unsaid.
#[verifier::external_body]
fn parse_usize(s: &str) -> (r: Result<usize, ChoiceError>)
    ensures
        r is Ok <==> reads_as_usize(s@),
        r matches Ok(v) ==> v == decimal_value(unsigned_digits(s@)),
        (r matches Err(ChoiceError::Empty)) <==> s@.len() == 0,
        s@.len() > 0 && (unsigned_digits(s@).len() == 0 || !is_digit(unsigned_digits(s@)[0]))
            ==> (r matches Err(ChoiceError::InvalidDigit)),
        unsigned_digits(s@).len() > 0 && (forall|i: int| 0 <= i < unsigned_digits(s@).len() ==> is_digit(#[trigger] unsigned_digits(s@)[i]))
            && decimal_value(unsigned_digits(s@)) > usize::MAX ==> (r matches Err(ChoiceError::Overflow)),
{
    match s.parse::<usize>() {
        Ok(v) => Ok(v),
        Err(e) => Err(match e.kind() {
            std::num::IntErrorKind::Empty => ChoiceError::Empty,
            std::num::IntErrorKind::InvalidDigit => ChoiceError::InvalidDigit,
            std::num::IntErrorKind::Zero => ChoiceError::Zero,
            _ => ChoiceError::Overflow,
        }),
    }
}

/// The answer typed on a menu line: the number on it, white space around it
/// ignored, or why there is none.
pub fn parse_choice(line: &str) -> (r: Result<usize, ChoiceError>)
    ensures
        r is Ok <==> reads_as_usize(trimmed(line@)),
        r matches Ok(v) ==> v == decimal_value(unsigned_digits(trimmed(line@))),
        (r matches Err(ChoiceError::Empty)) <==> trimmed(line@).len() == 0,
        trimmed(line@).len() > 0 && (unsigned_digits(trimmed(line@)).len() == 0
            || !is_digit(unsigned_digits(trimmed(line@))[0])) ==> (r matches Err(ChoiceError::InvalidDigit)),
        unsigned_digits(trimmed(line@)).len() > 0 && (forall|i: int|
            0 <= i < unsigned_digits(trimmed(line@)).len() ==> is_digit(#[trigger] unsigned_digits(trimmed(line@))[i]))
            && decimal_value(unsigned_digits(trimmed(line@))) > usize::MAX ==> (r matches Err(ChoiceError::Overflow)),
{
    let t = trim_line(line);
    parse_usize(t)
}

/// The render resolutions of the first menu, by entry number.
pub open spec fn spec_resolution_option(v: usize) -> Option<(usize, usize)> {
    if v == 1 { Some((960, 540)) }
    else if v == 2 { Some((1024, 576)) }
    else if v == 3 { Some((1280, 720)) }
    else if v == 4 { Some((1366, 768)) }
    else if v == 5 { Some((1600, 900)) }
    else if v == 6 { Some((1920, 1080)) }
    else if v == 7 { Some((2560, 1440)) }
    else if v == 8 { Some((3200, 1800)) }
    else if v == 9 { Some((3840, 2160)) }
    else { None }
}

/// Render resolution used when the answer is not one of the entries.
pub open spec fn default_resolution() -> (usize, usize) {
    (1280, 720)
}

pub fn resolution_option(v: usize) -> (r: Option<(usize, usize)>)
    ensures
        r == spec_resolution_option(v),
{
    if v == 1 { Some((960, 540)) }
    else if v == 2 { Some((1024, 576)) }
    else if v == 3 { Some((1280, 720)) }
    else if v == 4 { Some((1366, 768)) }
    else if v == 5 { Some((1600, 900)) }
    else if v == 6 { Some((1920, 1080)) }
    else if v == 7 { Some((2560, 1440)) }
    else if v == 8 { Some((3200, 1800)) }
    else if v == 9 { Some((3840, 2160)) }
    else { None }
}

pub open spec fn spec_resolution_choice(answer: Result<usize, ChoiceError>) -> (usize, usize) {
    match answer {
        Ok(v) => match spec_resolution_option(v) {
            Some(r) => r,
            None => default_resolution(),
        },
        Err(_) => default_resolution(),
    }
}

/// Render resolution for the answer to the first menu.
pub fn resolution_choice(answer: Result<usize, ChoiceError>) -> (r: (usize, usize))
    ensures
        r == spec_resolution_choice(answer),
{
    match answer {
        Ok(v) => match resolution_option(v) {
            Some(r) => r,
            None => (1280, 720),
        },
        Err(_) => (1280, 720),
    }
}

/// Default number of render threads for a machine with `available` threads:
/// 4 below 5 threads, 12 above 12, else 80% of them rounded down.
pub open spec fn spec_default_threads(available: usize) -> usize {
    if available < 5 {
        4
    } else if available > 12 {
        12
    } else {
        (available * 4 / 5) as usize
    }
}

pub fn default_threads(available: usize) -> (t: usize)
    ensures
        t == spec_default_threads(available),
        t <= 12,
{
    if available < 5 {
        4
    } else if available > 12 {
        12
    } else {
        available * 4 / 5
    }
}

/// Thread counts of the second menu, entries 1 to 10.
pub open spec fn spec_thread_option(v: usize) -> Option<u8> {
    if v == 1 { Some(1u8) }
    else if v == 2 { Some(2u8) }
    else if v == 3 { Some(4u8) }
    else if v == 4 { Some(6u8) }
    else if v == 5 { Some(8u8) }
    else if v == 6 { Some(12u8) }
    else if v == 7 { Some(16u8) }
    else if v == 8 { Some(24u8) }
    else if v == 9 { Some(32u8) }
    else if v == 10 { Some(64u8) }
    else { None }
}

pub fn thread_option(v: usize) -> (r: Option<u8>)
    ensures
        r == spec_thread_option(v),
{
    if v == 1 { Some(1u8) }
    else if v == 2 { Some(2u8) }
    else if v == 3 { Some(4u8) }
    else if v == 4 { Some(6u8) }
    else if v == 5 { Some(8u8) }
    else if v == 6 { Some(12u8) }
    else if v == 7 { Some(16u8) }
    else if v == 8 { Some(24u8) }
    else if v == 9 { Some(32u8) }
    else if v == 10 { Some(64u8) }
    else { None }
}

/// Entry 11 of the second menu: all threads of the machine.
pub open spec fn all_threads_entry() -> usize {
    11
}

pub open spec fn spec_thread_choice(answer: Result<usize, ChoiceError>, available: usize) -> u8 {
    match answer {
        Ok(v) => if v == all_threads_entry() {
            if available > 255 {
                255u8
            } else {
                available as u8
            }
        } else {
            match spec_thread_option(v) {
                Some(t) => t,
                None => spec_default_threads(available) as u8,
            }
        },
        Err(_) => spec_default_threads(available) as u8,
    }
}

/// Number of render threads for the answer to the second menu, on a machine
/// with `available` threads; "all threads" gives all of them, capped at 255
/// (the most a `u8` holds).
pub fn thread_choice(answer: Result<usize, ChoiceError>, available: usize) -> (t: u8)
    ensures
        t == spec_thread_choice(answer, available),
        available >= 1 ==> t >= 1,
{
    match answer {
        Ok(v) => if v == 11 {
            if available > 255 {
                255
            } else {
                available as u8
            }
        } else {
            match thread_option(v) {
                Some(t) => t,
                None => default_threads(available) as u8,
            }
        },
        Err(_) => default_threads(available) as u8,
    }
}

/// Supersampling factors of the anti-aliasing menu, entries 1 to 5.
pub open spec fn spec_supersample_option(v: usize) -> Option<usize> {
    if v == 1 { Some(1usize) }
    else if v == 2 { Some(2usize) }
    else if v == 3 { Some(4usize) }
    else if v == 4 { Some(8usize) }
    else if v == 5 { Some(16usize) }
    else { None }
}

pub fn supersample_option(v: usize) -> (r: Option<usize>)
    ensures
        r == spec_supersample_option(v),
{
    if v == 1 { Some(1) }
    else if v == 2 { Some(2) }
    else if v == 3 { Some(4) }
    else if v == 4 { Some(8) }
    else if v == 5 { Some(16) }
    else { None }
}

pub open spec fn spec_supersample_choice(answer: Result<usize, ChoiceError>) -> usize {
    match answer {
        Ok(v) => match spec_supersample_option(v) {
            Some(f) => f,
            None => 1,
        },
        Err(_) => 1,
    }
}

/// Supersampling factor for the answer to the anti-aliasing menu (1: none).
pub fn supersample_choice(answer: Result<usize, ChoiceError>) -> (f: usize)
    ensures
        f == spec_supersample_choice(answer),
{
    match answer {
        Ok(v) => match supersample_option(v) {
            Some(f) => f,
            None => 1,
        },
        Err(_) => 1,
    }
}

/// Output resolutions of the scaling menu, entries 1 to 8.
pub open spec fn spec_scale_option(v: usize) -> Option<(usize, usize)> {
    if v == 1 { Some((1024, 576)) }
    else if v == 2 { Some((1280, 720)) }
    else if v == 3 { Some((1366, 768)) }
    else if v == 4 { Some((1600, 900)) }
    else if v == 5 { Some((1920, 1080)) }
    else if v == 6 { Some((2560, 1440)) }
    else if v == 7 { Some((3200, 1800)) }
    else if v == 8 { Some((3840, 2160)) }
    else { None }
}

pub fn scale_option(v: usize) -> (r: Option<(usize, usize)>)
    ensures
        r == spec_scale_option(v),
{
    if v == 1 { Some((1024, 576)) }
    else if v == 2 { Some((1280, 720)) }
    else if v == 3 { Some((1366, 768)) }
    else if v == 4 { Some((1600, 900)) }
    else if v == 5 { Some((1920, 1080)) }
    else if v == 6 { Some((2560, 1440)) }
    else if v == 7 { Some((3200, 1800)) }
    else if v == 8 { Some((3840, 2160)) }
    else { None }
}

pub open spec fn spec_scale_choice(answer: Result<usize, ChoiceError>, render: (usize, usize)) -> (usize, usize) {
    match answer {
        Ok(v) => match spec_scale_option(v) {
            Some(r) => r,
            None => render,
        },
        Err(_) => render,
    }
}

/// Output resolution for the answer to the scaling menu; without a listed
/// entry the render resolution is kept.
pub fn scale_choice(answer: Result<usize, ChoiceError>, render: (usize, usize)) -> (r: (usize, usize))
    ensures
        r == spec_scale_choice(answer, render),
{
    match answer {
        Ok(v) => match scale_option(v) {
            Some(r) => r,
            None => render,
        },
        Err(_) => render,
    }
}

pub open spec fn spec_fullscreen_choice(answer: Result<usize, ChoiceError>) -> bool {
    answer == Ok::<usize, ChoiceError>(1)
}

/// Fullscreen for the answer to the last menu: only entry 1 ("Yes").
pub fn fullscreen_choice(answer: Result<usize, ChoiceError>) -> (f: bool)
    ensures
        f == spec_fullscreen_choice(answer),
{
    match answer {
        Ok(v) => v == 1,
        Err(_) => false,
    }
}

/// The settings chosen in the setup menus.
#[derive(Clone, Copy, Debug, PartialEq, Eq, Structural)]
pub struct Settings {
    pub render_width: usize,
    pub render_height: usize,
    pub scale_width: usize,
    pub scale_height: usize,
    pub threads: u8,
    pub supersample_factor: usize,
    pub fullscreen: bool,
}

/// The settings for the answers to the five setup menus (render resolution,
/// threads, anti-aliasing, output resolution, fullscreen) on a machine with
/// `available` threads.
pub fn settings_from_answers(
    resolution: Result<usize, ChoiceError>,
    threads: Result<usize, ChoiceError>,
    available: usize,
    anti_aliasing: Result<usize, ChoiceError>,
    scale: Result<usize, ChoiceError>,
    fullscreen: Result<usize, ChoiceError>,
) -> (s: Settings)
    ensures
        (s.render_width, s.render_height) == spec_resolution_choice(resolution),
        s.threads == spec_thread_choice(threads, available),
        s.supersample_factor == spec_supersample_choice(anti_aliasing),
        (s.scale_width, s.scale_height) == spec_scale_choice(scale, spec_resolution_choice(resolution)),
        s.fullscreen == spec_fullscreen_choice(fullscreen),
{
    let (render_width, render_height) = resolution_choice(resolution);
    let t = thread_choice(threads, available);
    let f = supersample_choice(anti_aliasing);
    let (scale_width, scale_height) = scale_choice(scale, (render_width, render_height));
    let full = fullscreen_choice(fullscreen);
    Settings {
        render_width,
        render_height,
        scale_width,
        scale_height,
        threads: t,
        supersample_factor: f,
        fullscreen: full,
    }
}

/// The render resolution menu, entry by entry, as it is printed:
/// 1 - 960x540, 2 - 1024x576, 3 - 1280x720, 4 - 1366x768, 5 - 1600x900,
/// 6 - 1920x1080, 7 - 2560x1440, 8 - 3200x1800, 9 - 3840x2160; no other
/// answer is an entry. Later entries are strictly larger in both
/// dimensions, so no two entries give the same resolution; and entries 2
/// to 9 are, in order, the entries 1 to 8 of the scaling menu.
pub proof fn law_resolution_menu(a: usize, b: usize)
    ensures
        spec_resolution_option(1) == Some((960usize, 540usize)),
        spec_resolution_option(2) == Some((1024usize, 576usize)),
        spec_resolution_option(3) == Some((1280usize, 720usize)),
        spec_resolution_option(4) == Some((1366usize, 768usize)),
        spec_resolution_option(5) == Some((1600usize, 900usize)),
        spec_resolution_option(6) == Some((1920usize, 1080usize)),
        spec_resolution_option(7) == Some((2560usize, 1440usize)),
        spec_resolution_option(8) == Some((3200usize, 1800usize)),
        spec_resolution_option(9) == Some((3840usize, 2160usize)),
        spec_resolution_option(a) is Some <==> 1 <= a <= 9,
        1 <= a < b <= 9 ==> (spec_resolution_option(a)->0).0 < (spec_resolution_option(b)->0).0
            && (spec_resolution_option(a)->0).1 < (spec_resolution_option(b)->0).1,
        1 <= a <= 8 ==> spec_scale_option(a) == spec_resolution_option((a + 1) as usize),
        spec_scale_option(a) is Some <==> 1 <= a <= 8,
{
}

/// The other setup menus, entry by entry, as they are printed: threads
/// 1, 2, 4, 6, 8, 12, 16, 24, 32, 64 for entries 1 to 10 (more for each later
/// entry) and entry 11 all of the machine's threads, at most 255;
/// anti-aliasing factors 1, 2, 4, 8, 16 for entries 1 to 5, and no
/// anti-aliasing (factor 1) for any other answer; fullscreen only for
/// entry 1. An answer that is not an entry of the first menu gives
/// 1280x720.
pub proof fn law_setup_menus(a: usize, b: usize, available: usize, answer: Result<usize, ChoiceError>)
    ensures
        spec_thread_option(1) == Some(1u8),
        spec_thread_option(2) == Some(2u8),
        spec_thread_option(3) == Some(4u8),
        spec_thread_option(4) == Some(6u8),
        spec_thread_option(5) == Some(8u8),
        spec_thread_option(6) == Some(12u8),
        spec_thread_option(7) == Some(16u8),
        spec_thread_option(8) == Some(24u8),
        spec_thread_option(9) == Some(32u8),
        spec_thread_option(10) == Some(64u8),
        spec_thread_option(a) is Some <==> 1 <= a <= 10,
        1 <= a < b <= 10 ==> spec_thread_option(a)->0 < spec_thread_option(b)->0,
        spec_thread_choice(Ok(11usize), available) == (if available > 255 { 255 } else { available }),
        spec_supersample_option(1) == Some(1usize),
        spec_supersample_option(2) == Some(2usize),
        spec_supersample_option(3) == Some(4usize),
        spec_supersample_option(4) == Some(8usize),
        spec_supersample_option(5) == Some(16usize),
        !(1 <= a <= 5) ==> spec_supersample_choice(Ok(a)) == 1,
        (answer is Err) ==> spec_supersample_choice(answer) == 1,
        spec_fullscreen_choice(answer) <==> answer == Ok::<usize, ChoiceError>(1),
        !(1 <= a <= 9) ==> spec_resolution_choice(Ok(a)) == (1280usize, 720usize),
        (answer is Err) ==> spec_resolution_choice(answer) == (1280usize, 720usize),
        1 <= a <= 9 ==> spec_resolution_choice(Ok(a)) == spec_resolution_option(a)->0,
{
}

} // verus!
