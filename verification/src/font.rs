//! The font descriptor, its glyphs, its errors, and the parser.
//!
//! [`spec_load_sfl`] is the specification-level parser: a total function from
//! descriptor text to either an abstract descriptor ([`SflData`]) or a
//! [`ParseError`]. The executable entry points are proved to return exactly
//! what it says, so parsing is a pure function of the text.

use std::collections::HashMap;

use vstd::prelude::*;

use crate::num::parse_i32;
use crate::num::parse_u32;
use crate::num::spec_parse_i32;
use crate::num::spec_parse_u32;
use crate::text::spec_lines;
use crate::text::split_char;
use crate::text::split_lines;
use crate::text::split_spaces;

verus! {

/// One glyph of the bitmap-font atlas: its rectangle, offsets and advance.
#[derive(Debug, Clone, Copy, PartialEq, Eq, Structural)]
pub struct BMCharacter {
    /// Glyph id of the character.
    pub id: i32,
    /// x-position of the character on the atlas.
    pub x: i32,
    /// y-position of the character on the atlas.
    pub y: i32,
    /// Width of the character on the atlas.
    pub width: i32,
    /// Height of the character.
    pub height: i32,
    /// x-offset of the character.
    pub xoffset: i32,
    /// y-offset of the character.
    pub yoffset: i32,
    /// x-advance of the character.
    pub xadvance: i32,
}

/// Why a descriptor text was rejected.
#[derive(Debug, Clone, Copy, PartialEq, Eq, Structural)]
pub enum ParseError {
    /// The text has fewer than the five lines a descriptor needs.
    TooFewLines,
    /// The second line does not consist of exactly two tokens.
    HeaderShape,
    /// The first token of the second line is not an unsigned integer.
    SizeParse,
    /// The second token of the second line is not an unsigned integer.
    LineHeightParse,
    /// The fourth line is not an unsigned integer.
    GlyphCountParse,
    /// Fewer glyph lines follow the header than the fourth line declares.
    GlyphCountMismatch {
        /// How many lines follow the header.
        remaining: usize,
        /// How many glyph lines the fourth line declares.
        declared: u32,
    },
    /// A glyph line has fewer than eight tokens.
    GlyphTooFewParts {
        /// 1-based index of the offending glyph line.
        glyph: u32,
    },
    /// A token among the first eight of a glyph line is not a signed integer.
    GlyphParse {
        /// 1-based index of the offending glyph line.
        glyph: u32,
    },
}

/// What a descriptor text denotes: the abstract value of a parsed font.
pub struct SflData {
    /// The first line, verbatim.
    pub font_name: Seq<char>,
    /// The third line (for the memory-based entry point, the caller's path).
    pub image_path: Seq<char>,
    /// The glyphs, keyed by glyph id.
    pub chars: Map<u32, BMCharacter>,
    /// The second token of the second line.
    pub line_height: u32,
    /// The first token of the second line.
    pub size: u32,
}

/// Loaded and parsed form of an `.sfl` file (a bitmap font descriptor).
#[derive(Debug)]
pub struct BMFont {
    /// The name of the font.
    pub font_name: String,
    /// The path of the image atlas for the font.
    pub image_path: String,
    /// The characters of the font, keyed by glyph id.
    pub chars: HashMap<u32, BMCharacter>,
    /// Line height of the font.
    pub line_height: u32,
    /// Size of the font.
    pub size: u32,
}

impl BMFont {
    /// The abstract descriptor this value carries.
    pub open spec fn abs(self) -> SflData {
        SflData {
            font_name: self.font_name@,
            image_path: self.image_path@,
            chars: self.chars@,
            line_height: self.line_height,
            size: self.size,
        }
    }
}

/// The map key under which a glyph with this id is stored: the id reread as
/// an unsigned 32-bit number, as in two's complement.
pub open spec fn glyph_key(id: i32) -> u32 {
    if id >= 0 {
        id as u32
    } else {
        (id + 0x1_0000_0000) as u32
    }
}

/// What parsing one glyph line yields: eight integer tokens in the order
/// `id x y width height xoffset yoffset xadvance`, further tokens ignored.
/// `glyph_index` is the 1-based index the errors report.
pub open spec fn spec_read_character(line: Seq<char>, glyph_index: u32) -> Result<
    BMCharacter,
    ParseError,
> {
    let parts = split_char(line, ' ');
    if parts.len() < 8 {
        Err(ParseError::GlyphTooFewParts { glyph: glyph_index })
    } else if exists|k: int| 0 <= k < 8 && spec_parse_i32(#[trigger] parts[k]) is None {
        Err(ParseError::GlyphParse { glyph: glyph_index })
    } else {
        Ok(
            BMCharacter {
                id: spec_parse_i32(parts[0])->0,
                x: spec_parse_i32(parts[1])->0,
                y: spec_parse_i32(parts[2])->0,
                width: spec_parse_i32(parts[3])->0,
                height: spec_parse_i32(parts[4])->0,
                xoffset: spec_parse_i32(parts[5])->0,
                yoffset: spec_parse_i32(parts[6])->0,
                xadvance: spec_parse_i32(parts[7])->0,
            },
        )
    }
}

/// What parsing the first `n` glyph lines yields: the glyphs keyed by id,
/// later lines overwriting earlier ones with the same id, or the error of
/// the first line that fails.
pub open spec fn spec_glyphs(glyph_lines: Seq<Seq<char>>, n: int) -> Result<
    Map<u32, BMCharacter>,
    ParseError,
>
    decreases n,
{
    if n <= 0 {
        Ok(Map::empty())
    } else {
        match spec_glyphs(glyph_lines, n - 1) {
            Err(e) => Err(e),
            Ok(m) => match spec_read_character(glyph_lines[n - 1], n as u32) {
                Err(e) => Err(e),
                Ok(ch) => Ok(m.insert(glyph_key(ch.id), ch)),
            },
        }
    }
}

/// The specification-level parser: what any descriptor text denotes.
///
/// The first token of the second line populates `size` and the second token
/// `line_height`; that assignment is the format's established one and is
/// kept even though the names suggest the reverse.
pub open spec fn spec_load_sfl(t: Seq<char>) -> Result<SflData, ParseError> {
    let lines = spec_lines(t);
    if lines.len() < 5 {
        Err(ParseError::TooFewLines)
    } else {
        let header = split_char(lines[1], ' ');
        if header.len() != 2 {
            Err(ParseError::HeaderShape)
        } else {
            match spec_parse_u32(header[0]) {
                None => Err(ParseError::SizeParse),
                Some(size) => match spec_parse_u32(header[1]) {
                    None => Err(ParseError::LineHeightParse),
                    Some(line_height) => match spec_parse_u32(lines[3]) {
                        None => Err(ParseError::GlyphCountParse),
                        Some(declared) => if lines.len() - 4 < declared as int {
                            Err(
                                ParseError::GlyphCountMismatch {
                                    remaining: (lines.len() - 4) as usize,
                                    declared,
                                },
                            )
                        } else {
                            match spec_glyphs(lines.skip(4), declared as int) {
                                Err(e) => Err(e),
                                Ok(chars) => Ok(
                                    SflData {
                                        font_name: lines[0],
                                        image_path: lines[2],
                                        chars,
                                        line_height,
                                        size,
                                    },
                                ),
                            }
                        },
                    },
                },
            }
        }
    }
}

/// What `load_sfl` promises: exactly the specification-level parse.
pub open spec fn load_post(t: Seq<char>, r: Result<BMFont, ParseError>) -> bool {
    match spec_load_sfl(t) {
        Ok(d) => r is Ok && r->Ok_0.abs() == d,
        Err(e) => r is Err && r->Err_0 == e,
    }
}

/// Wraps a successful glyph pass into the final descriptor, or passes the
/// error through; the tail of [`spec_load_sfl`] once the header is read.
spec fn glyphs_to_load(
    g: Result<Map<u32, BMCharacter>, ParseError>,
    font_name: Seq<char>,
    image_path: Seq<char>,
    line_height: u32,
    size: u32,
) -> Result<SflData, ParseError> {
    match g {
        Err(e) => Err(e),
        Ok(chars) => Ok(SflData { font_name, image_path, chars, line_height, size }),
    }
}

/// The parsed record of glyph line `i` (0-based), where the line parses.
pub open spec fn glyph_record_at(gl: Seq<Seq<char>>, i: int) -> BMCharacter {
    spec_read_character(gl[i], (i + 1) as u32)->Ok_0
}

/// The id of glyph line `i` (0-based), where the line parses.
pub open spec fn glyph_id_at(gl: Seq<Seq<char>>, i: int) -> i32 {
    glyph_record_at(gl, i).id
}

/// Two ids stored under one key are the same id: the key determines the id.
pub proof fn lemma_glyph_key_injective(a: i32, b: i32)
    requires
        glyph_key(a) == glyph_key(b),
    ensures
        a == b,
{
    if a >= 0 {
        assert(glyph_key(a) as int == a as int);
    } else {
        assert(glyph_key(a) as int == a + 0x1_0000_0000);
    }
    if b >= 0 {
        assert(glyph_key(b) as int == b as int);
    } else {
        assert(glyph_key(b) as int == b + 0x1_0000_0000);
    }
}

/// After a successful glyph pass, every line of it parses, every prefix pass
/// succeeds, and the map's domain is exactly the keys of the parsed lines.
proof fn lemma_glyphs_dom(gl: Seq<Seq<char>>, n: int)
    requires
        0 <= n,
        spec_glyphs(gl, n) is Ok,
    ensures
        forall|i: int| 0 <= i <= n ==> #[trigger] spec_glyphs(gl, i) is Ok,
        forall|i: int| 0 <= i < n ==> #[trigger] spec_read_character(gl[i], (i + 1) as u32) is Ok,
        spec_glyphs(gl, n)->Ok_0.dom() == Set::new(
            |k: u32| exists|i: int| 0 <= i < n && k == glyph_key(#[trigger] glyph_id_at(gl, i)),
        ),
    decreases n,
{
    let keys = Set::new(
        |k: u32| exists|i: int| 0 <= i < n && k == glyph_key(#[trigger] glyph_id_at(gl, i)),
    );
    if n == 0 {
        assert(spec_glyphs(gl, n)->Ok_0.dom() =~= keys);
    } else {
        lemma_glyphs_dom(gl, n - 1);
        let m0 = spec_glyphs(gl, n - 1)->Ok_0;
        let k1 = glyph_key(glyph_id_at(gl, n - 1));
        assert(spec_glyphs(gl, n)->Ok_0 == m0.insert(k1, glyph_record_at(gl, n - 1)));
        let keys0 = Set::new(
            |k: u32| exists|i: int| 0 <= i < n - 1 && k == glyph_key(#[trigger] glyph_id_at(gl, i)),
        );
        assert forall|k: u32| spec_glyphs(gl, n)->Ok_0.dom().contains(k) implies keys.contains(
            k,
        ) by {
            if k == k1 {
                assert(k == glyph_key(glyph_id_at(gl, n - 1)));
            } else {
                assert(keys0.contains(k));
                let i = choose|i: int| 0 <= i < n - 1 && k == glyph_key(
                    #[trigger] glyph_id_at(gl, i),
                );
                assert(k == glyph_key(glyph_id_at(gl, i)));
            }
        }
        assert forall|k: u32| keys.contains(k) implies spec_glyphs(gl, n)->Ok_0.dom().contains(
            k,
        ) by {
            let i = choose|i: int| 0 <= i < n && k == glyph_key(#[trigger] glyph_id_at(gl, i));
            if i < n - 1 {
                assert(keys0.contains(k));
            }
        }
        assert(spec_glyphs(gl, n)->Ok_0.dom() =~= keys);
    }
}

/// A successful glyph pass over `n` lines yields at most `n` glyphs, and
/// exactly `n` exactly when the ids of the lines are pairwise distinct:
/// fewer glyphs than lines means duplicate ids, and conversely.
pub proof fn lemma_glyphs_count(gl: Seq<Seq<char>>, n: int)
    requires
        0 <= n,
        spec_glyphs(gl, n) is Ok,
    ensures
        spec_glyphs(gl, n)->Ok_0.dom().finite(),
        spec_glyphs(gl, n)->Ok_0.dom().len() <= n,
        spec_glyphs(gl, n)->Ok_0.dom().len() == n <==> (forall|i: int, j: int|
            0 <= i < j < n ==> glyph_id_at(gl, i) != glyph_id_at(gl, j)),
    decreases n,
{
    if n > 0 {
        lemma_glyphs_dom(gl, n);
        lemma_glyphs_dom(gl, n - 1);
        lemma_glyphs_count(gl, n - 1);
        let m0 = spec_glyphs(gl, n - 1)->Ok_0;
        let k1 = glyph_key(glyph_id_at(gl, n - 1));
        let dom = spec_glyphs(gl, n)->Ok_0.dom();
        assert(dom =~= m0.dom().insert(k1));
        let keys0 = Set::new(
            |k: u32| exists|i: int| 0 <= i < n - 1 && k == glyph_key(#[trigger] glyph_id_at(gl, i)),
        );
        if m0.dom().contains(k1) {
            // A duplicate: some earlier line bears the same id.
            let i = choose|i: int| 0 <= i < n - 1 && k1 == glyph_key(
                #[trigger] glyph_id_at(gl, i),
            );
            lemma_glyph_key_injective(glyph_id_at(gl, i), glyph_id_at(gl, n - 1));
            assert(glyph_id_at(gl, i) == glyph_id_at(gl, n - 1));
            assert(dom.len() == m0.dom().len());
            assert(dom.len() < n);
            assert(!(forall|i: int, j: int|
                0 <= i < j < n ==> glyph_id_at(gl, i) != glyph_id_at(gl, j)));
        } else {
            assert(dom.len() == m0.dom().len() + 1);
            if m0.dom().len() == n - 1 {
                assert(dom.len() == n);
                assert forall|i: int, j: int| 0 <= i < j < n implies glyph_id_at(gl, i)
                    != glyph_id_at(gl, j) by {
                    if j == n - 1 {
                        if glyph_id_at(gl, i) == glyph_id_at(gl, n - 1) {
                            assert(keys0.contains(glyph_key(glyph_id_at(gl, i))));
                        }
                    }
                }
            } else {
                assert(dom.len() < n);
                let (i, j) = choose|i: int, j: int|
                    0 <= i < j < n - 1 && glyph_id_at(gl, i) == glyph_id_at(gl, j);
                assert(0 <= i < j < n && glyph_id_at(gl, i) == glyph_id_at(gl, j));
            }
        }
    }
}

/// Within one glyph pass, the entry stored for a glyph id is the record of
/// the last line bearing that id: later lines overwrite earlier ones.
pub proof fn lemma_glyphs_last_write_wins(gl: Seq<Seq<char>>, n: int, i: int)
    requires
        0 <= i < n,
        spec_glyphs(gl, n) is Ok,
        forall|j: int| i < j < n ==> glyph_id_at(gl, j) != glyph_id_at(gl, i),
    ensures
        spec_glyphs(gl, n)->Ok_0.contains_key(glyph_key(glyph_id_at(gl, i))),
        spec_glyphs(gl, n)->Ok_0[glyph_key(glyph_id_at(gl, i))] == glyph_record_at(gl, i),
    decreases n,
{
    lemma_glyphs_dom(gl, n);
    if i == n - 1 {
    } else {
        lemma_glyphs_last_write_wins(gl, n - 1, i);
        if glyph_key(glyph_id_at(gl, n - 1)) == glyph_key(glyph_id_at(gl, i)) {
            lemma_glyph_key_injective(glyph_id_at(gl, n - 1), glyph_id_at(gl, i));
        }
    }
}

/// Successful parses hold at most as many glyphs as the fourth line
/// declares, and exactly that many exactly when the glyph ids are pairwise
/// distinct.
pub proof fn lemma_parse_glyph_count(t: Seq<char>)
    requires
        spec_load_sfl(t) is Ok,
    ensures
        ({
            let d = spec_load_sfl(t)->Ok_0;
            let n = spec_parse_u32(spec_lines(t)[3])->0 as int;
            let gl = spec_lines(t).skip(4);
            &&& d.chars.dom().finite()
            &&& d.chars.dom().len() <= n
            &&& (d.chars.dom().len() == n <==> (forall|i: int, j: int|
                0 <= i < j < n ==> glyph_id_at(gl, i) != glyph_id_at(gl, j)))
        }),
{
    let gl = spec_lines(t).skip(4);
    let n = spec_parse_u32(spec_lines(t)[3])->0 as int;
    lemma_glyphs_count(gl, n);
}

/// In a successful parse, the glyph stored for an id is the record of the
/// last glyph line bearing that id: later lines overwrite earlier ones.
pub proof fn lemma_parse_last_write_wins(t: Seq<char>, i: int)
    requires
        spec_load_sfl(t) is Ok,
        0 <= i < spec_parse_u32(spec_lines(t)[3])->0 as int,
        forall|j: int|
            i < j < spec_parse_u32(spec_lines(t)[3])->0 as int ==> glyph_id_at(
                spec_lines(t).skip(4),
                j,
            ) != glyph_id_at(spec_lines(t).skip(4), i),
    ensures
        ({
            let d = spec_load_sfl(t)->Ok_0;
            let gl = spec_lines(t).skip(4);
            &&& d.chars.contains_key(glyph_key(glyph_id_at(gl, i)))
            &&& d.chars[glyph_key(glyph_id_at(gl, i))] == glyph_record_at(gl, i)
        }),
{
    let gl = spec_lines(t).skip(4);
    let n = spec_parse_u32(spec_lines(t)[3])->0 as int;
    lemma_glyphs_last_write_wins(gl, n, i);
}

/// Parsing is a pure function of the text: two results that `load_sfl` may
/// return for the same contents agree on every field, and on the error.
pub proof fn lemma_load_sfl_deterministic(
    t: Seq<char>,
    r1: Result<BMFont, ParseError>,
    r2: Result<BMFont, ParseError>,
)
    requires
        load_post(t, r1),
        load_post(t, r2),
    ensures
        r1 is Ok <==> r2 is Ok,
        r1 is Ok ==> r1->Ok_0.abs() == r2->Ok_0.abs(),
        r1 is Err ==> r1->Err_0 == r2->Err_0,
{
}

/// An error on glyph line `i` (0-based) after a clean prefix fails the
/// whole glyph pass with that error.
proof fn lemma_spec_glyphs_err(gl: Seq<Seq<char>>, i: int, n: int)
    requires
        0 <= i < n,
        spec_glyphs(gl, i) is Ok,
        spec_read_character(gl[i], (i + 1) as u32) is Err,
    ensures
        spec_glyphs(gl, n) == Err::<Map<u32, BMCharacter>, ParseError>(
            spec_read_character(gl[i], (i + 1) as u32)->Err_0,
        ),
    decreases n,
{
    if i + 1 < n {
        lemma_spec_glyphs_err(gl, i, n - 1);
    }
}

impl BMFont {
    /// Parse one glyph line: at least eight space-separated integer tokens in
    /// the order `id x y width height xoffset yoffset xadvance`, tokens beyond
    /// the eighth ignored. `line_number` is the 1-based glyph index that the
    /// errors report.
    pub fn read_character(line: &str, line_number: u32) -> (r: Result<BMCharacter, ParseError>)
        ensures
            r == spec_read_character(line@, line_number),
    {
        let ghost sparts = split_char(line@, ' ');
        let parts = split_spaces(line);
        proof {
            assert(parts@.len() == sparts.len());
        }
        if parts.len() < 8 {
            return Err(ParseError::GlyphTooFewParts { glyph: line_number });
        }
        let mut numbers: Vec<i32> = Vec::new();
        let mut k: usize = 0;
        while k < 8
            invariant
                sparts == split_char(line@, ' '),
                parts.deep_view() == sparts,
                parts@.len() == sparts.len(),
                sparts.len() >= 8,
                k <= 8,
                numbers@.len() == k,
                forall|j: int|
                    0 <= j < k ==> spec_parse_i32(#[trigger] sparts[j]) == Some(numbers@[j]),
            decreases 8 - k,
        {
            proof {
                assert(parts.deep_view()[k as int] == parts@[k as int]@);
            }
            match parse_i32(parts[k].as_str()) {
                Some(v) => numbers.push(v),
                None => {
                    proof {
                        assert(spec_parse_i32(sparts[k as int]) is None);
                    }
                    return Err(ParseError::GlyphParse { glyph: line_number });
                },
            }
            k += 1;
        }
        Ok(
            BMCharacter {
                id: numbers[0],
                x: numbers[1],
                y: numbers[2],
                width: numbers[3],
                height: numbers[4],
                xoffset: numbers[5],
                yoffset: numbers[6],
                xadvance: numbers[7],
            },
        )
    }

    /// The key under which a glyph is stored: its id reread as unsigned.
    fn key_of(id: i32) -> (k: u32)
        ensures
            k == glyph_key(id),
    {
        if id >= 0 {
            id as u32
        } else {
            ((id as i64) + 0x1_0000_0000i64) as u32
        }
    }

    /// Parse the contents of an `.sfl` file into a descriptor whose
    /// `image_path` is the third line verbatim; the result is exactly what
    /// [`spec_load_sfl`] says of the text.
    pub fn load_sfl(sfl_contents: &str) -> (r: Result<BMFont, ParseError>)
        ensures
            load_post(sfl_contents@, r),
    {
        let ghost t = sfl_contents@;
        let ghost ls = spec_lines(t);
        let lines = split_lines(sfl_contents);
        proof {
            assert(lines@.len() == ls.len());
        }
        if lines.len() < 5 {
            return Err(ParseError::TooFewLines);
        }
        let font_name: String = lines[0].clone();
        proof {
            assert(lines.deep_view()[0] == lines@[0]@);
            assert(lines.deep_view()[1] == lines@[1]@);
            assert(lines.deep_view()[2] == lines@[2]@);
            assert(lines.deep_view()[3] == lines@[3]@);
        }
        let header = split_spaces(lines[1].as_str());
        proof {
            assert(header@.len() == split_char(ls[1], ' ').len());
        }
        if header.len() != 2 {
            return Err(ParseError::HeaderShape);
        }
        proof {
            assert(header.deep_view()[0] == header@[0]@);
            assert(header.deep_view()[1] == header@[1]@);
        }
        let size: u32 = match parse_u32(header[0].as_str()) {
            Some(v) => v,
            None => {
                return Err(ParseError::SizeParse);
            },
        };
        let line_height: u32 = match parse_u32(header[1].as_str()) {
            Some(v) => v,
            None => {
                return Err(ParseError::LineHeightParse);
            },
        };
        let image_path: String = lines[2].clone();
        let declared: u32 = match parse_u32(lines[3].as_str()) {
            Some(v) => v,
            None => {
                return Err(ParseError::GlyphCountParse);
            },
        };
        if lines.len() - 4 < declared as usize {
            return Err(
                ParseError::GlyphCountMismatch { remaining: lines.len() - 4, declared },
            );
        }
        let ghost glines = ls.skip(4);
        let mut chars: HashMap<u32, BMCharacter> = HashMap::new();
        let mut i: u32 = 0;
        while i < declared
            invariant
                t == sfl_contents@,
                ls == spec_lines(t),
                lines.deep_view() == ls,
                lines@.len() == ls.len(),
                ls.len() >= 5,
                glines == ls.skip(4),
                declared as int <= ls.len() - 4,
                i <= declared,
                spec_glyphs(glines, i as int) == Ok::<Map<u32, BMCharacter>, ParseError>(chars@),
                spec_load_sfl(t) == glyphs_to_load(
                    spec_glyphs(glines, declared as int),
                    ls[0],
                    ls[2],
                    line_height,
                    size,
                ),
            decreases declared - i,
        {
            let idx: usize = 4 + (i as usize);
            proof {
                assert(lines.deep_view()[idx as int] == lines@[idx as int]@);
                assert(glines[i as int] == ls[idx as int]);
            }
            let ch = match Self::read_character(lines[idx].as_str(), i + 1) {
                Ok(ch) => ch,
                Err(e) => {
                    proof {
                        assert(spec_read_character(glines[i as int], (i + 1) as u32) is Err);
                        lemma_spec_glyphs_err(glines, i as int, declared as int);
                    }
                    return Err(e);
                },
            };
            let key = Self::key_of(ch.id);
            chars.insert(key, ch);
            i += 1;
        }
        Ok(BMFont { font_name, image_path, chars, line_height, size })
    }

    /// Parse descriptor contents and set `image_path` to the caller's
    /// `image_path`, verbatim, whatever the third line holds. Fails exactly
    /// when parsing fails, with the parse error unchanged.
    pub fn from_loaded(sfl_contents: &str, image_path: &str) -> (r: Result<BMFont, ParseError>)
        ensures
            match spec_load_sfl(sfl_contents@) {
                Ok(d) => r is Ok && r->Ok_0.abs() == (SflData {
                    font_name: d.font_name,
                    image_path: image_path@,
                    chars: d.chars,
                    line_height: d.line_height,
                    size: d.size,
                }),
                Err(e) => r is Err && r->Err_0 == e,
            },
    {
        match Self::load_sfl(sfl_contents) {
            Ok(bmfont) => {
                let mut bmfont = bmfont;
                bmfont.image_path = image_path.to_owned();
                Ok(bmfont)
            },
            Err(e) => Err(e),
        }
    }
}

} // verus!
