use vstd::prelude::*;
use vstd::string::StringExecFns;
use crate::cell::Cell;

verus! {

/// The problem-description templates a grid can be rendered through.
/// Rendering itself is the enclosing application's job; the core only
/// names the template and prepares its parameters as plain values.
#[derive(Clone, Copy, Debug, PartialEq, Eq, Structural)]
#[non_exhaustive]
pub enum Template {
    Default,
    Eight,
    Disabled,
    Multiple,
    MultipleSections,
    MultipleSeparated,
    CornerCutting,
    TurnCost(u32),
    Pink,
}

impl Template {
    pub fn variants() -> (r: Vec<Template>)
        ensures
            r@ == seq![
                Template::Default,
                Template::Eight,
                Template::Disabled,
                Template::Multiple,
                Template::MultipleSections,
                Template::MultipleSeparated,
                Template::CornerCutting,
                Template::TurnCost(0),
                Template::Pink,
            ],
    {
        let mut v: Vec<Template> = Vec::new();
        v.push(Template::Default);
        v.push(Template::Eight);
        v.push(Template::Disabled);
        v.push(Template::Multiple);
        v.push(Template::MultipleSections);
        v.push(Template::MultipleSeparated);
        v.push(Template::CornerCutting);
        v.push(Template::TurnCost(0));
        v.push(Template::Pink);
        proof {
            assert(v@ =~= seq![
                Template::Default,
                Template::Eight,
                Template::Disabled,
                Template::Multiple,
                Template::MultipleSections,
                Template::MultipleSeparated,
                Template::CornerCutting,
                Template::TurnCost(0),
                Template::Pink,
            ]);
        }
        v
    }

    /// The template's file stem.
    pub fn name(&self) -> (r: &'static str)
        ensures
            self is Default ==> r@ == "path"@,
            self is Eight ==> r@ == "path_8"@,
            self is Disabled ==> r@ == "path_disabled"@,
            self is Multiple ==> r@ == "path_multiple"@,
            self is MultipleSections ==> r@ == "path_multiple_sections"@,
            self is MultipleSeparated ==> r@ == "path_multiple_separated"@,
            self is CornerCutting ==> r@ == "path_corner_cutting"@,
            self is TurnCost ==> r@ == "path_turn_cost"@,
            self is Pink ==> r@ == "path_pink"@,
    {
        match self {
            Template::Default => "path",
            Template::Eight => "path_8",
            Template::Disabled => "path_disabled",
            Template::Multiple => "path_multiple",
            Template::MultipleSections => "path_multiple_sections",
            Template::MultipleSeparated => "path_multiple_separated",
            Template::CornerCutting => "path_corner_cutting",
            Template::TurnCost(_) => "path_turn_cost",
            Template::Pink => "path_pink",
        }
    }
}

/// The decimal digit character for `d`.
pub open spec fn digit_char(d: int) -> char {
    if d == 0 { '0' }
    else if d == 1 { '1' }
    else if d == 2 { '2' }
    else if d == 3 { '3' }
    else if d == 4 { '4' }
    else if d == 5 { '5' }
    else if d == 6 { '6' }
    else if d == 7 { '7' }
    else if d == 8 { '8' }
    else { '9' }
}

/// The decimal character sequence of a non-negative number, most
/// significant digit first, without leading zeros.
pub open spec fn dec_chars(n: int) -> Seq<char>
    decreases n when n >= 0
{
    if n < 10 {
        seq![digit_char(n)]
    } else {
        dec_chars(n / 10) + seq![digit_char(n % 10)]
    }
}

/// Appends the decimal rendering of `n` to `s`.
fn push_dec_str(s: &mut String, n: usize)
    ensures
        final(s)@ == old(s)@ + dec_chars(n as int),
    decreases n,
{
    if n >= 10 {
        push_dec_str(s, n / 10);
    }
    let d = n % 10;
    let digit: &'static str = match d {
        0 => "0",
        1 => "1",
        2 => "2",
        3 => "3",
        4 => "4",
        5 => "5",
        6 => "6",
        7 => "7",
        8 => "8",
        _ => "9",
    };
    proof {
        reveal_strlit("0");
        reveal_strlit("1");
        reveal_strlit("2");
        reveal_strlit("3");
        reveal_strlit("4");
        reveal_strlit("5");
        reveal_strlit("6");
        reveal_strlit("7");
        reveal_strlit("8");
        reveal_strlit("9");
        assert(digit@ =~= seq![digit_char(d as int)]);
    }
    s.append(digit);
    proof {
        if n >= 10 {
            assert(old(s)@ + dec_chars((n / 10) as int) + seq![digit_char(d as int)]
                =~= old(s)@ + dec_chars(n as int));
        } else {
            assert(old(s)@ + seq![digit_char(n as int)] =~= old(s)@ + dec_chars(n as int));
        }
    }
}

/// One pairing constraint, shaped for the problem-description template:
/// a parameter name `pink_pair<counter>` (counters start at 1) and the
/// flat value list `1, x1, 2, y1, 3, x2, 4, y2` of the two linked cells.
pub struct PinkPairParam {
    pub name: String,
    pub values: Vec<usize>,
}

impl PinkPairParam {
    /// Shapes the unique pair enumeration into template parameters, in
    /// order, numbering the pairs from 1.
    pub fn new(pink_pairs: Vec<(Cell, Cell)>) -> (r: Vec<PinkPairParam>)
        ensures
            r@.len() == pink_pairs@.len(),
            forall|i: int| 0 <= i < r@.len() ==> {
                &&& (#[trigger] r@[i]).values@ == seq![
                    1usize,
                    pink_pairs@[i].0.x,
                    2usize,
                    pink_pairs@[i].0.y,
                    3usize,
                    pink_pairs@[i].1.x,
                    4usize,
                    pink_pairs@[i].1.y,
                ]
                &&& r@[i].name@ == "pink_pair"@ + dec_chars(i + 1)
            },
    {
        let mut result: Vec<PinkPairParam> = Vec::new();
        let mut i: usize = 0;
        while i < pink_pairs.len()
            invariant
                i <= pink_pairs@.len(),
                result@.len() == i,
                forall|k: int| 0 <= k < i ==> {
                    &&& (#[trigger] result@[k]).values@ == seq![
                        1usize,
                        pink_pairs@[k].0.x,
                        2usize,
                        pink_pairs@[k].0.y,
                        3usize,
                        pink_pairs@[k].1.x,
                        4usize,
                        pink_pairs@[k].1.y,
                    ]
                    &&& result@[k].name@ == "pink_pair"@ + dec_chars(k + 1)
                },
            decreases pink_pairs@.len() - i,
        {
            let (a, b) = pink_pairs[i];
            let mut values: Vec<usize> = Vec::new();
            values.push(1);
            values.push(a.x);
            values.push(2);
            values.push(a.y);
            values.push(3);
            values.push(b.x);
            values.push(4);
            values.push(b.y);
            let mut name = String::from_str("pink_pair");
            push_dec_str(&mut name, i + 1);
            proof {
                assert(values@ =~= seq![1usize, a.x, 2usize, a.y, 3usize, b.x, 4usize, b.y]);
            }
            result.push(PinkPairParam { name, values });
            i = i + 1;
        }
        result
    }
}

/// Shapes the unique pair enumeration into template parameters; the
/// free-function form of `PinkPairParam::new`.
pub fn prepare_pink_params(pink_pairs: Vec<(Cell, Cell)>) -> (r: Vec<PinkPairParam>)
    ensures
        r@.len() == pink_pairs@.len(),
        forall|i: int| 0 <= i < r@.len() ==> {
            &&& (#[trigger] r@[i]).values@ == seq![
                1usize,
                pink_pairs@[i].0.x,
                2usize,
                pink_pairs@[i].0.y,
                3usize,
                pink_pairs@[i].1.x,
                4usize,
                pink_pairs@[i].1.y,
            ]
            &&& r@[i].name@ == "pink_pair"@ + dec_chars(i + 1)
        },
{
    PinkPairParam::new(pink_pairs)
}

} // verus!
