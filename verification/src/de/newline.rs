//! Reading the newline-separated text of an `LLWearable` asset into an LLSD map.
use vstd::prelude::*;
use crate::value::{LLSDValue, SpecLLSD, dict_insert, view_pairs, dict_insert_exec};
use crate::text::{
    trimmed_lines, words, starts_with, views, chars_of, trimmed_lines_of, words_of,
    starts_with_chars, eq_chars, contains_char, string_of, slice_chars,
};
use crate::numbers::{parse_int_spec, parse_i32_spec, real_text_ok, parse_int, parse_i32, real_text_valid};
use crate::outside::{uuid_parsed, parse_uuid};

verus! {

/// The first line of a wearable asset of format version 22.
pub const LLSDNEWLINEPREFIX: &'static str = "LLWearable version 22";

/// Why the text of a wearable asset could not be read.
#[derive(Debug, Clone, Copy, PartialEq, Eq, Structural)]
pub enum WearableError {
    /// The text ended where a line was still expected.
    UnexpectedEnd,
    /// The first line is not `LLWearable version N`.
    BadHeader,
    /// A number (version, permission, sale price, count or parameter) is not valid.
    InvalidNumber,
    /// A `permissions` or `sale_info` line is not followed by a `{` line.
    MissingBrace,
    /// A UUID is not valid.
    InvalidUuid,
    /// A line of `sale_info` does not hold exactly two words.
    BadSaleInfoLine,
    /// A field of `sale_info` other than `sale_type` and `sale_price`.
    UnknownSaleField,
    /// A `parameters` or `textures` line without its count.
    MissingCount,
}

/// The four maps that the sections of a wearable asset fill.
pub struct WearSections {
    pub permissions: Seq<(Seq<char>, SpecLLSD)>,
    pub sale_info: Seq<(Seq<char>, SpecLLSD)>,
    pub parameters: Seq<(Seq<char>, SpecLLSD)>,
    pub textures: Seq<(Seq<char>, SpecLLSD)>,
}

pub open spec fn no_sections() -> WearSections {
    WearSections {
        permissions: Seq::empty(),
        sale_info: Seq::empty(),
        parameters: Seq::empty(),
        textures: Seq::empty(),
    }
}

/// What a count of a `parameters` or `textures` line is read as: a `usize`.
pub open spec fn count_spec(word: Seq<char>) -> Option<int> {
    parse_int_spec(word, 10, false, 0, usize::MAX as int)
}

/// What a permission value is read as: a UUID where it holds `-`, else a hexadecimal `i32`.
pub open spec fn permission_value(word: Seq<char>) -> Result<SpecLLSD, WearableError> {
    if word.contains('-') {
        match uuid_parsed(word) {
            Some(bits) => Ok(SpecLLSD::UUID(bits)),
            None => Err(WearableError::InvalidUuid),
        }
    } else {
        match parse_int_spec(word, 16, true, i32::MIN as int, i32::MAX as int) {
            Some(v) => Ok(SpecLLSD::Integer(v as i32)),
            None => Err(WearableError::InvalidNumber),
        }
    }
}

/// Reads the lines from `i` on, outside any section.
pub open spec fn wear_body(ls: Seq<Seq<char>>, i: int, acc: WearSections) -> Result<
    WearSections,
    WearableError,
>
    decreases ls.len() - i, 0nat,
{
    if i < 0 || i >= ls.len() {
        Ok(acc)
    } else {
        let line = ls[i];
        if starts_with(line, "permissions"@) {
            if i + 1 >= ls.len() {
                Err(WearableError::UnexpectedEnd)
            } else if ls[i + 1] != "{"@ {
                Err(WearableError::MissingBrace)
            } else {
                wear_permissions(ls, i + 2, acc)
            }
        } else if starts_with(line, "sale_info"@) {
            if i + 1 >= ls.len() {
                Err(WearableError::UnexpectedEnd)
            } else if ls[i + 1] != "{"@ {
                Err(WearableError::MissingBrace)
            } else {
                wear_sale_info(ls, i + 2, acc)
            }
        } else if starts_with(line, "parameters"@) {
            let parts = words(line);
            if parts.len() < 2 {
                Err(WearableError::MissingCount)
            } else {
                match count_spec(parts[1]) {
                    Some(n) => wear_parameters(ls, i + 1, n as nat, acc),
                    None => Err(WearableError::InvalidNumber),
                }
            }
        } else if starts_with(line, "textures"@) {
            let parts = words(line);
            if parts.len() < 2 {
                Err(WearableError::MissingCount)
            } else {
                match count_spec(parts[1]) {
                    Some(n) => wear_textures(ls, i + 1, n as nat, acc),
                    None => Err(WearableError::InvalidNumber),
                }
            }
        } else {
            wear_body(ls, i + 1, acc)
        }
    }
}

/// Reads the lines of a `permissions` section from `j` on, up to its `}` line or the
/// end of the text: `NAME VALUE` lines set a permission, other lines are passed over.
pub open spec fn wear_permissions(ls: Seq<Seq<char>>, j: int, acc: WearSections) -> Result<
    WearSections,
    WearableError,
>
    decreases ls.len() - j, 1nat,
{
    if j < 0 || j >= ls.len() {
        Ok(acc)
    } else if ls[j] == "}"@ {
        wear_body(ls, j + 1, acc)
    } else {
        let parts = words(ls[j]);
        if parts.len() == 2 {
            match permission_value(parts[1]) {
                Ok(v) => wear_permissions(
                    ls,
                    j + 1,
                    WearSections { permissions: dict_insert(acc.permissions, parts[0], v), ..acc },
                ),
                Err(e) => Err(e),
            }
        } else {
            wear_permissions(ls, j + 1, acc)
        }
    }
}

/// Reads the lines of a `sale_info` section from `j` on, up to its `}` line or the
/// end of the text: each line is `sale_type TEXT` or `sale_price INTEGER`.
pub open spec fn wear_sale_info(ls: Seq<Seq<char>>, j: int, acc: WearSections) -> Result<
    WearSections,
    WearableError,
>
    decreases ls.len() - j, 1nat,
{
    if j < 0 || j >= ls.len() {
        Ok(acc)
    } else if ls[j] == "}"@ {
        wear_body(ls, j + 1, acc)
    } else {
        let parts = words(ls[j]);
        if parts.len() != 2 {
            Err(WearableError::BadSaleInfoLine)
        } else if parts[0] == "sale_type"@ {
            wear_sale_info(
                ls,
                j + 1,
                WearSections {
                    sale_info: dict_insert(acc.sale_info, parts[0], SpecLLSD::Str(parts[1])),
                    ..acc
                },
            )
        } else if parts[0] == "sale_price"@ {
            match parse_i32_spec(parts[1]) {
                Some(v) => wear_sale_info(
                    ls,
                    j + 1,
                    WearSections {
                        sale_info: dict_insert(acc.sale_info, parts[0], SpecLLSD::Integer(v as i32)),
                        ..acc
                    },
                ),
                None => Err(WearableError::InvalidNumber),
            }
        } else {
            Err(WearableError::UnknownSaleField)
        }
    }
}

/// Reads the `n` lines of a `parameters` section from `j` on: `ID VALUE` lines, both
/// real numbers, set a parameter (keyed by the text of its id); other lines are
/// passed over.
pub open spec fn wear_parameters(ls: Seq<Seq<char>>, j: int, n: nat, acc: WearSections) -> Result<
    WearSections,
    WearableError,
>
    decreases ls.len() - j, 1nat,
{
    if n == 0 {
        wear_body(ls, j, acc)
    } else if j < 0 || j >= ls.len() {
        Err(WearableError::UnexpectedEnd)
    } else {
        let parts = words(ls[j]);
        if parts.len() == 2 {
            if !real_text_ok(parts[0]) || !real_text_ok(parts[1]) {
                Err(WearableError::InvalidNumber)
            } else {
                wear_parameters(
                    ls,
                    j + 1,
                    (n - 1) as nat,
                    WearSections {
                        parameters: dict_insert(acc.parameters, parts[0], SpecLLSD::Real(parts[1])),
                        ..acc
                    },
                )
            }
        } else {
            wear_parameters(ls, j + 1, (n - 1) as nat, acc)
        }
    }
}

/// Reads the `n` lines of a `textures` section from `j` on: `ID UUID` lines set a
/// texture; other lines are passed over.
pub open spec fn wear_textures(ls: Seq<Seq<char>>, j: int, n: nat, acc: WearSections) -> Result<
    WearSections,
    WearableError,
>
    decreases ls.len() - j, 1nat,
{
    if n == 0 {
        wear_body(ls, j, acc)
    } else if j < 0 || j >= ls.len() {
        Err(WearableError::UnexpectedEnd)
    } else {
        let parts = words(ls[j]);
        if parts.len() == 2 {
            match uuid_parsed(parts[1]) {
                Some(bits) => wear_textures(
                    ls,
                    j + 1,
                    (n - 1) as nat,
                    WearSections {
                        textures: dict_insert(acc.textures, parts[0], SpecLLSD::UUID(bits)),
                        ..acc
                    },
                ),
                None => Err(WearableError::InvalidUuid),
            }
        } else {
            wear_textures(ls, j + 1, (n - 1) as nat, acc)
        }
    }
}

/// The map that a wearable asset's text stands for: its version, its name (the
/// second line) and the maps of its four sections.
pub open spec fn wearable_spec(text: Seq<char>) -> Result<SpecLLSD, WearableError> {
    let ls = trimmed_lines(text);
    let prefix = "LLWearable version "@;
    if ls.len() == 0 {
        Err(WearableError::UnexpectedEnd)
    } else if !starts_with(ls[0], prefix) {
        Err(WearableError::BadHeader)
    } else {
        match parse_i32_spec(ls[0].skip(prefix.len() as int)) {
            None => Err(WearableError::InvalidNumber),
            Some(version) => if ls.len() < 2 {
                Err(WearableError::UnexpectedEnd)
            } else {
                match wear_body(ls, 2, no_sections()) {
                    Err(e) => Err(e),
                    Ok(acc) => Ok(
                        SpecLLSD::Dict(
                            seq![
                                ("version"@, SpecLLSD::Integer(version as i32)),
                                ("name"@, SpecLLSD::Str(ls[1])),
                                ("permissions"@, SpecLLSD::Dict(acc.permissions)),
                                ("sale_info"@, SpecLLSD::Dict(acc.sale_info)),
                                ("parameters"@, SpecLLSD::Dict(acc.parameters)),
                                ("textures"@, SpecLLSD::Dict(acc.textures)),
                            ],
                        ),
                    ),
                }
            },
        }
    }
}

/// The four maps that the sections of a wearable asset fill.
struct Sections {
    permissions: Vec<(String, LLSDValue)>,
    sale_info: Vec<(String, LLSDValue)>,
    parameters: Vec<(String, LLSDValue)>,
    textures: Vec<(String, LLSDValue)>,
}

spec fn sections_view(s: Sections) -> WearSections {
    WearSections {
        permissions: view_pairs(s.permissions@),
        sale_info: view_pairs(s.sale_info@),
        parameters: view_pairs(s.parameters@),
        textures: view_pairs(s.textures@),
    }
}

fn lit(s: &str) -> (r: Vec<char>)
    ensures
        r@ == s@,
{
    chars_of(s)
}

fn count_of(word: &Vec<char>) -> (r: Option<usize>)
    ensures
        match r {
            Some(n) => count_spec(word@) == Some(n as int),
            None => count_spec(word@) is None,
        },
{
    match parse_int(word, 10, false, 0, usize::MAX as i128) {
        Some(n) => Some(n as usize),
        None => None,
    }
}

fn permission_value_of(word: &Vec<char>) -> (r: Result<LLSDValue, WearableError>)
    ensures
        match r {
            Ok(v) => permission_value(word@) == Ok::<SpecLLSD, WearableError>(v@),
            Err(e) => permission_value(word@) == Err::<SpecLLSD, WearableError>(e),
        },
{
    if contains_char(word, '-') {
        let s = string_of(word);
        match parse_uuid(s.as_str()) {
            Some(bits) => Ok(LLSDValue::UUID(bits)),
            None => Err(WearableError::InvalidUuid),
        }
    } else {
        match parse_int(word, 16, true, i32::MIN as i128, i32::MAX as i128) {
            Some(v) => Ok(LLSDValue::Integer(v as i32)),
            None => Err(WearableError::InvalidNumber),
        }
    }
}

/// Reads a `permissions` section from line `j0` on; `Ok` holds the line after it.
fn read_permissions(ls: &Vec<Vec<char>>, j0: usize, acc: &mut Sections) -> (r: Result<usize, WearableError>)
    requires
        j0 <= ls@.len(),
    ensures
        match r {
            Ok(j) => j0 <= j <= ls@.len() && wear_permissions(views(ls@), j0 as int, sections_view(*old(acc)))
                == wear_body(views(ls@), j as int, sections_view(*final(acc))),
            Err(e) => wear_permissions(views(ls@), j0 as int, sections_view(*old(acc))) == Err::<
                WearSections,
                WearableError,
            >(e),
        },
{
    let ghost lsv = views(ls@);
    let ghost acc0 = sections_view(*acc);
    let close = lit("}");
    let mut j = j0;
    loop
        invariant
            j0 <= j <= ls@.len() == lsv.len(),
            lsv == views(ls@),
            acc0 == sections_view(*old(acc)),
            close@ == "}"@,
            wear_permissions(lsv, j0 as int, acc0) == wear_permissions(lsv, j as int, sections_view(*acc)),
        decreases ls@.len() - j,
    {
        if j >= ls.len() {
            return Ok(j);
        }
        assert(lsv[j as int] == ls@[j as int]@);
        if eq_chars(&ls[j], &close) {
            return Ok(j + 1);
        }
        let parts = words_of(&ls[j]);
        if parts.len() == 2 {
            assert(views(parts@)[0] == parts@[0]@ && views(parts@)[1] == parts@[1]@);
            match permission_value_of(&parts[1]) {
                Ok(v) => {
                    dict_insert_exec(&mut acc.permissions, string_of(&parts[0]), v);
                },
                Err(e) => {
                    return Err(e);
                },
            }
        }
        j = j + 1;
    }
}

/// Reads a `sale_info` section from line `j0` on; `Ok` holds the line after it.
fn read_sale_info(ls: &Vec<Vec<char>>, j0: usize, acc: &mut Sections) -> (r: Result<usize, WearableError>)
    requires
        j0 <= ls@.len(),
    ensures
        match r {
            Ok(j) => j0 <= j <= ls@.len() && wear_sale_info(views(ls@), j0 as int, sections_view(*old(acc)))
                == wear_body(views(ls@), j as int, sections_view(*final(acc))),
            Err(e) => wear_sale_info(views(ls@), j0 as int, sections_view(*old(acc))) == Err::<
                WearSections,
                WearableError,
            >(e),
        },
{
    let ghost lsv = views(ls@);
    let ghost acc0 = sections_view(*acc);
    let close = lit("}");
    let sale_type = lit("sale_type");
    let sale_price = lit("sale_price");
    let mut j = j0;
    loop
        invariant
            j0 <= j <= ls@.len() == lsv.len(),
            lsv == views(ls@),
            acc0 == sections_view(*old(acc)),
            close@ == "}"@,
            sale_type@ == "sale_type"@,
            sale_price@ == "sale_price"@,
            wear_sale_info(lsv, j0 as int, acc0) == wear_sale_info(lsv, j as int, sections_view(*acc)),
        decreases ls@.len() - j,
    {
        if j >= ls.len() {
            return Ok(j);
        }
        assert(lsv[j as int] == ls@[j as int]@);
        if eq_chars(&ls[j], &close) {
            return Ok(j + 1);
        }
        let parts = words_of(&ls[j]);
        if parts.len() != 2 {
            return Err(WearableError::BadSaleInfoLine);
        }
        assert(views(parts@)[0] == parts@[0]@ && views(parts@)[1] == parts@[1]@);
        if eq_chars(&parts[0], &sale_type) {
            dict_insert_exec(&mut acc.sale_info, string_of(&parts[0]), LLSDValue::String(string_of(&parts[1])));
        } else if eq_chars(&parts[0], &sale_price) {
            match parse_i32(&parts[1]) {
                Some(v) => {
                    dict_insert_exec(&mut acc.sale_info, string_of(&parts[0]), LLSDValue::Integer(v));
                },
                None => {
                    return Err(WearableError::InvalidNumber);
                },
            }
        } else {
            return Err(WearableError::UnknownSaleField);
        }
        j = j + 1;
    }
}

/// Reads the `n0` lines of a `parameters` section from line `j0` on; `Ok` holds the
/// line after them.
fn read_parameters(ls: &Vec<Vec<char>>, j0: usize, n0: usize, acc: &mut Sections) -> (r: Result<
    usize,
    WearableError,
>)
    requires
        j0 <= ls@.len(),
    ensures
        match r {
            Ok(j) => j0 <= j <= ls@.len() && wear_parameters(
                views(ls@),
                j0 as int,
                n0 as nat,
                sections_view(*old(acc)),
            ) == wear_body(views(ls@), j as int, sections_view(*final(acc))),
            Err(e) => wear_parameters(views(ls@), j0 as int, n0 as nat, sections_view(*old(acc)))
                == Err::<WearSections, WearableError>(e),
        },
{
    let ghost lsv = views(ls@);
    let ghost acc0 = sections_view(*acc);
    let mut j = j0;
    let mut n = n0;
    loop
        invariant
            j0 <= j <= ls@.len() == lsv.len(),
            lsv == views(ls@),
            acc0 == sections_view(*old(acc)),
            wear_parameters(lsv, j0 as int, n0 as nat, acc0) == wear_parameters(
                lsv,
                j as int,
                n as nat,
                sections_view(*acc),
            ),
        decreases ls@.len() - j,
    {
        if n == 0 {
            return Ok(j);
        }
        if j >= ls.len() {
            return Err(WearableError::UnexpectedEnd);
        }
        assert(lsv[j as int] == ls@[j as int]@);
        let parts = words_of(&ls[j]);
        if parts.len() == 2 {
            assert(views(parts@)[0] == parts@[0]@ && views(parts@)[1] == parts@[1]@);
            if !real_text_valid(&parts[0]) || !real_text_valid(&parts[1]) {
                return Err(WearableError::InvalidNumber);
            }
            dict_insert_exec(&mut acc.parameters, string_of(&parts[0]), LLSDValue::Real(string_of(&parts[1])));
        }
        j = j + 1;
        n = n - 1;
    }
}

/// Reads the `n0` lines of a `textures` section from line `j0` on; `Ok` holds the
/// line after them.
fn read_textures(ls: &Vec<Vec<char>>, j0: usize, n0: usize, acc: &mut Sections) -> (r: Result<
    usize,
    WearableError,
>)
    requires
        j0 <= ls@.len(),
    ensures
        match r {
            Ok(j) => j0 <= j <= ls@.len() && wear_textures(
                views(ls@),
                j0 as int,
                n0 as nat,
                sections_view(*old(acc)),
            ) == wear_body(views(ls@), j as int, sections_view(*final(acc))),
            Err(e) => wear_textures(views(ls@), j0 as int, n0 as nat, sections_view(*old(acc)))
                == Err::<WearSections, WearableError>(e),
        },
{
    let ghost lsv = views(ls@);
    let ghost acc0 = sections_view(*acc);
    let mut j = j0;
    let mut n = n0;
    loop
        invariant
            j0 <= j <= ls@.len() == lsv.len(),
            lsv == views(ls@),
            acc0 == sections_view(*old(acc)),
            wear_textures(lsv, j0 as int, n0 as nat, acc0) == wear_textures(
                lsv,
                j as int,
                n as nat,
                sections_view(*acc),
            ),
        decreases ls@.len() - j,
    {
        if n == 0 {
            return Ok(j);
        }
        if j >= ls.len() {
            return Err(WearableError::UnexpectedEnd);
        }
        assert(lsv[j as int] == ls@[j as int]@);
        let parts = words_of(&ls[j]);
        if parts.len() == 2 {
            assert(views(parts@)[0] == parts@[0]@ && views(parts@)[1] == parts@[1]@);
            let s = string_of(&parts[1]);
            match parse_uuid(s.as_str()) {
                Some(bits) => {
                    dict_insert_exec(&mut acc.textures, string_of(&parts[0]), LLSDValue::UUID(bits));
                },
                None => {
                    return Err(WearableError::InvalidUuid);
                },
            }
        }
        j = j + 1;
        n = n - 1;
    }
}

/// Parses the newline-separated text of an `LLWearable` asset into an LLSD map with
/// the keys `version`, `name`, `permissions`, `sale_info`, `parameters` and
/// `textures`.
pub fn parse_llwearable_to_llsd(text: &str) -> (r: Result<LLSDValue, WearableError>)
    ensures
        match r {
            Ok(v) => wearable_spec(text@) == Ok::<SpecLLSD, WearableError>(v@),
            Err(e) => wearable_spec(text@) == Err::<SpecLLSD, WearableError>(e),
        },
{
    let chars = chars_of(text);
    let ls = trimmed_lines_of(&chars);
    let ghost lsv = views(ls@);
    assert(lsv == trimmed_lines(text@));
    if ls.len() == 0 {
        return Err(WearableError::UnexpectedEnd);
    }
    let prefix = lit("LLWearable version ");
    assert(lsv[0] == ls@[0]@);
    if !starts_with_chars(&ls[0], &prefix) {
        return Err(WearableError::BadHeader);
    }
    let rest = slice_chars(&ls[0], prefix.len(), ls[0].len());
    assert(rest@ =~= lsv[0].skip(prefix@.len() as int));
    let version = match parse_i32(&rest) {
        Some(v) => v,
        None => {
            return Err(WearableError::InvalidNumber);
        },
    };
    if ls.len() < 2 {
        return Err(WearableError::UnexpectedEnd);
    }
    assert(lsv[1] == ls@[1]@);
    let name = string_of(&ls[1]);
    let mut acc = Sections {
        permissions: Vec::new(),
        sale_info: Vec::new(),
        parameters: Vec::new(),
        textures: Vec::new(),
    };
    assert(view_pairs(acc.permissions@) =~= Seq::<(Seq<char>, SpecLLSD)>::empty());
    assert(view_pairs(acc.sale_info@) =~= Seq::<(Seq<char>, SpecLLSD)>::empty());
    assert(view_pairs(acc.parameters@) =~= Seq::<(Seq<char>, SpecLLSD)>::empty());
    assert(view_pairs(acc.textures@) =~= Seq::<(Seq<char>, SpecLLSD)>::empty());
    assert(sections_view(acc) == no_sections());
    let permissions = lit("permissions");
    let sale_info = lit("sale_info");
    let parameters = lit("parameters");
    let textures = lit("textures");
    let open = lit("{");
    let mut i: usize = 2;
    let outcome: Result<(), WearableError>;
    loop
        invariant_except_break
            2 <= i <= ls@.len() == lsv.len(),
            lsv == views(ls@),
            permissions@ == "permissions"@,
            sale_info@ == "sale_info"@,
            parameters@ == "parameters"@,
            textures@ == "textures"@,
            open@ == "{"@,
            wear_body(lsv, 2, no_sections()) == wear_body(lsv, i as int, sections_view(acc)),
        ensures
            match outcome {
                Ok(()) => wear_body(lsv, 2, no_sections()) == Ok::<WearSections, WearableError>(
                    sections_view(acc),
                ),
                Err(e) => wear_body(lsv, 2, no_sections()) == Err::<WearSections, WearableError>(e),
            },
        decreases ls@.len() - i,
    {
        if i >= ls.len() {
            outcome = Ok(());
            break;
        }
        let line = &ls[i];
        assert(lsv[i as int] == line@);
        if starts_with_chars(line, &permissions) || starts_with_chars(line, &sale_info) {
            if i + 1 >= ls.len() {
                outcome = Err(WearableError::UnexpectedEnd);
                break;
            }
            assert(lsv[i + 1] == ls@[i + 1]@);
            if !eq_chars(&ls[i + 1], &open) {
                outcome = Err(WearableError::MissingBrace);
                break;
            }
            let next = if starts_with_chars(line, &permissions) {
                read_permissions(&ls, i + 2, &mut acc)
            } else {
                read_sale_info(&ls, i + 2, &mut acc)
            };
            match next {
                Ok(j) => {
                    i = j;
                },
                Err(e) => {
                    outcome = Err(e);
                    break;
                },
            }
        } else if starts_with_chars(line, &parameters) || starts_with_chars(line, &textures) {
            let parts = words_of(line);
            if parts.len() < 2 {
                outcome = Err(WearableError::MissingCount);
                break;
            }
            assert(views(parts@)[1] == parts@[1]@);
            let n = match count_of(&parts[1]) {
                Some(n) => n,
                None => {
                    outcome = Err(WearableError::InvalidNumber);
                    break;
                },
            };
            let next = if starts_with_chars(line, &parameters) {
                read_parameters(&ls, i + 1, n, &mut acc)
            } else {
                read_textures(&ls, i + 1, n, &mut acc)
            };
            match next {
                Ok(j) => {
                    i = j;
                },
                Err(e) => {
                    outcome = Err(e);
                    break;
                },
            }
        } else {
            i = i + 1;
        }
    }
    match outcome {
        Err(e) => Err(e),
        Ok(()) => {
            let ghost sv = sections_view(acc);
            let mut root: Vec<(String, LLSDValue)> = Vec::new();
            root.push((String::from_str("version"), LLSDValue::Integer(version)));
            root.push((String::from_str("name"), LLSDValue::String(name)));
            root.push((String::from_str("permissions"), LLSDValue::Dict(acc.permissions)));
            root.push((String::from_str("sale_info"), LLSDValue::Dict(acc.sale_info)));
            root.push((String::from_str("parameters"), LLSDValue::Dict(acc.parameters)));
            root.push((String::from_str("textures"), LLSDValue::Dict(acc.textures)));
            let r = LLSDValue::Dict(root);
            assert(view_pairs(root@) =~= seq![
                ("version"@, SpecLLSD::Integer(version)),
                ("name"@, SpecLLSD::Str(lsv[1])),
                ("permissions"@, SpecLLSD::Dict(sv.permissions)),
                ("sale_info"@, SpecLLSD::Dict(sv.sale_info)),
                ("parameters"@, SpecLLSD::Dict(sv.parameters)),
                ("textures"@, SpecLLSD::Dict(sv.textures)),
            ]);
            Ok(r)
        },
    }
}

} // verus!
