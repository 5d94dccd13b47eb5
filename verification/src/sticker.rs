//! The note entity: the validated shape of a sticky note.
//!
//! A [`Sticker`] is the transfer and persistence unit for one note.  The
//! factory [`Sticker::new`] is the single source of truth for new-note
//! defaults: empty content, a freshly drawn random display color, not pinned
//! and not archived.

use vstd::prelude::*;
use vstd::string::StringExecFns;

verus! {

broadcast use vstd::utf8::char_is_scalar, vstd::utf8::char_u32_cast;

/// Mathematical model of one note record.
#[verifier::ext_equal]
pub ghost struct StickerModel {
    pub uuid: Seq<char>,
    pub markdown: Seq<char>,
    pub color: Seq<char>,
    pub pos_x: int,
    pub pos_y: int,
    pub height: int,
    pub width: int,
    pub pinned: bool,
    pub archived: bool,
    pub created_at: Seq<char>,
    pub updated_at: Seq<char>,
}

/// One note record: identity, content, display color, window geometry,
/// pin flag, soft-delete flag and audit timestamps.
pub struct Sticker {
    pub uuid: String,
    pub markdown: String,
    pub color: String,
    pub pos_x: i32,
    pub pos_y: i32,
    pub height: u32,
    pub width: u32,
    pub pinned: bool,
    pub archived: bool,
    pub created_at: String,
    pub updated_at: String,
}

impl View for Sticker {
    type V = StickerModel;

    open spec fn view(&self) -> StickerModel {
        StickerModel {
            uuid: self.uuid@,
            markdown: self.markdown@,
            color: self.color@,
            pos_x: self.pos_x as int,
            pos_y: self.pos_y as int,
            height: self.height as int,
            width: self.width as int,
            pinned: self.pinned,
            archived: self.archived,
            created_at: self.created_at@,
            updated_at: self.updated_at@,
        }
    }
}

impl DeepView for Sticker {
    type V = StickerModel;

    open spec fn deep_view(&self) -> StickerModel {
        self.view()
    }
}

impl Clone for Sticker {
    fn clone(&self) -> (s: Self)
        ensures
            s == *self,
    {
        Sticker {
            uuid: self.uuid.clone(),
            markdown: self.markdown.clone(),
            color: self.color.clone(),
            pos_x: self.pos_x,
            pos_y: self.pos_y,
            height: self.height,
            width: self.width,
            pinned: self.pinned,
            archived: self.archived,
            created_at: self.created_at.clone(),
            updated_at: self.updated_at.clone(),
        }
    }
}

/// The model with another markdown payload.
pub open spec fn set_markdown(m: StickerModel, text: Seq<char>) -> StickerModel {
    StickerModel { markdown: text, ..m }
}

/// The model with another display color.
pub open spec fn set_color(m: StickerModel, color: Seq<char>) -> StickerModel {
    StickerModel { color: color, ..m }
}

/// The model with another screen position.
pub open spec fn set_position(m: StickerModel, x: int, y: int) -> StickerModel {
    StickerModel { pos_x: x, pos_y: y, ..m }
}

/// The model with another window size.
pub open spec fn set_size(m: StickerModel, width: int, height: int) -> StickerModel {
    StickerModel { width: width, height: height, ..m }
}

/// The model with another pin flag.
pub open spec fn set_pinned(m: StickerModel, pinned: bool) -> StickerModel {
    StickerModel { pinned: pinned, ..m }
}

/// The model with another soft-delete flag.
pub open spec fn set_archived(m: StickerModel, archived: bool) -> StickerModel {
    StickerModel { archived: archived, ..m }
}

/// The lowercase hexadecimal digit for a value below sixteen.
pub open spec fn hex_char_of(v: int) -> char {
    if v == 0 {
        '0'
    } else if v == 1 {
        '1'
    } else if v == 2 {
        '2'
    } else if v == 3 {
        '3'
    } else if v == 4 {
        '4'
    } else if v == 5 {
        '5'
    } else if v == 6 {
        '6'
    } else if v == 7 {
        '7'
    } else if v == 8 {
        '8'
    } else if v == 9 {
        '9'
    } else if v == 10 {
        'a'
    } else if v == 11 {
        'b'
    } else if v == 12 {
        'c'
    } else if v == 13 {
        'd'
    } else if v == 14 {
        'e'
    } else {
        'f'
    }
}

/// A lowercase hexadecimal digit.
pub open spec fn is_hex_digit(c: char) -> bool {
    ('0' as u32) <= (c as u32) <= ('9' as u32) || ('a' as u32) <= (c as u32) <= ('f' as u32)
}

/// The two hexadecimal digits of a byte value.
pub open spec fn hex_pair(v: int) -> Seq<char> {
    seq![hex_char_of(v / 16), hex_char_of(v % 16)]
}

/// The display form of an RGB color: `#` followed by six hexadecimal digits.
pub open spec fn color_chars(r: int, g: int, b: int) -> Seq<char> {
    seq!['#'] + hex_pair(r) + hex_pair(g) + hex_pair(b)
}

/// A well-formed color tag: `#` followed by six lowercase hexadecimal digits.
pub open spec fn is_color_hex(s: Seq<char>) -> bool {
    s.len() == 7 && s[0] == '#' && (forall|i: int| 1 <= i < 7 ==> is_hex_digit(#[trigger] s[i]))
}

proof fn lemma_hex_char_of_is_digit(v: int)
    requires
        0 <= v < 16,
    ensures
        is_hex_digit(hex_char_of(v)),
{
}

/// The display form of a color made of byte components is a well-formed tag.
pub proof fn lemma_color_chars_valid(r: int, g: int, b: int)
    requires
        0 <= r < 256,
        0 <= g < 256,
        0 <= b < 256,
    ensures
        is_color_hex(color_chars(r, g, b)),
{
    let s = color_chars(r, g, b);
    lemma_hex_char_of_is_digit(r / 16);
    lemma_hex_char_of_is_digit(r % 16);
    lemma_hex_char_of_is_digit(g / 16);
    lemma_hex_char_of_is_digit(g % 16);
    lemma_hex_char_of_is_digit(b / 16);
    lemma_hex_char_of_is_digit(b % 16);
    assert(s[1] == hex_char_of(r / 16));
    assert(s[2] == hex_char_of(r % 16));
    assert(s[3] == hex_char_of(g / 16));
    assert(s[4] == hex_char_of(g % 16));
    assert(s[5] == hex_char_of(b / 16));
    assert(s[6] == hex_char_of(b % 16));
}

fn hex_str(v: u8) -> (r: &'static str)
    requires
        v < 16,
    ensures
        r@.len() == 1,
        r@[0] == hex_char_of(v as int),
{
    if v == 0 {
        proof {
            reveal_strlit("0");
        }
        "0"
    } else if v == 1 {
        proof {
            reveal_strlit("1");
        }
        "1"
    } else if v == 2 {
        proof {
            reveal_strlit("2");
        }
        "2"
    } else if v == 3 {
        proof {
            reveal_strlit("3");
        }
        "3"
    } else if v == 4 {
        proof {
            reveal_strlit("4");
        }
        "4"
    } else if v == 5 {
        proof {
            reveal_strlit("5");
        }
        "5"
    } else if v == 6 {
        proof {
            reveal_strlit("6");
        }
        "6"
    } else if v == 7 {
        proof {
            reveal_strlit("7");
        }
        "7"
    } else if v == 8 {
        proof {
            reveal_strlit("8");
        }
        "8"
    } else if v == 9 {
        proof {
            reveal_strlit("9");
        }
        "9"
    } else if v == 10 {
        proof {
            reveal_strlit("a");
        }
        "a"
    } else if v == 11 {
        proof {
            reveal_strlit("b");
        }
        "b"
    } else if v == 12 {
        proof {
            reveal_strlit("c");
        }
        "c"
    } else if v == 13 {
        proof {
            reveal_strlit("d");
        }
        "d"
    } else if v == 14 {
        proof {
            reveal_strlit("e");
        }
        "e"
    } else {
        proof {
            reveal_strlit("f");
        }
        "f"
    }
}

/// Renders an RGB color as `#` followed by six lowercase hexadecimal digits.
pub fn format_color(r: u8, g: u8, b: u8) -> (s: String)
    ensures
        s@ == color_chars(r as int, g as int, b as int),
{
    let mut s = String::from_str("#");
    proof {
        reveal_strlit("#");
    }
    s.append(hex_str(r / 16));
    s.append(hex_str(r % 16));
    s.append(hex_str(g / 16));
    s.append(hex_str(g % 16));
    s.append(hex_str(b / 16));
    s.append(hex_str(b % 16));
    proof {
        assert(s@ =~= color_chars(r as int, g as int, b as int));
    }
    s
}

/// Relies on `rand::random::<u8>`: draws one random byte.  Nothing is assumed
/// about the value drawn.
#[verifier::external_body]
fn random_byte() -> u8 {
    rand::random()
}

/// Draws a uniformly sampled RGB color and renders it as a `#`-prefixed
/// six-digit hexadecimal tag.
pub fn generate_random_color() -> (s: String)
    ensures
        is_color_hex(s@),
{
    let r = random_byte();
    let g = random_byte();
    let b = random_byte();
    let s = format_color(r, g, b);
    proof {
        lemma_color_chars_valid(r as int, g as int, b as int);
    }
    s
}

impl Sticker {
    /// Builds a new note from an id and its initial window geometry, with the
    /// default content, a random color, and cleared pin and archive flags.
    pub fn new(uuid: &str, pos_x: i32, pos_y: i32, height: u32, width: u32) -> (s: Self)
        ensures
            s@.uuid == uuid@,
            s@.markdown.len() == 0,
            is_color_hex(s@.color),
            s@.pos_x == pos_x as int,
            s@.pos_y == pos_y as int,
            s@.height == height as int,
            s@.width == width as int,
            s@.pinned == false,
            s@.archived == false,
            s@.created_at.len() == 0,
            s@.updated_at.len() == 0,
    {
        Sticker {
            uuid: uuid.to_owned(),
            markdown: String::new(),
            color: generate_random_color(),
            pos_x,
            pos_y,
            height,
            width,
            pinned: false,
            archived: false,
            created_at: String::new(),
            updated_at: String::new(),
        }
    }
}

} // verus!
