//! Reading the options of the viewer from its command line.

use vstd::prelude::*;
use vstd::string::StringExecFns;
use std::str::FromStr;
use crate::lexical::is_digit;
use crate::numeric::{decimal, digit_values};
use crate::query::str_eq;

verus! {

/// Options of the viewer, as given on its command line.
pub struct Params {
    pub full_screen: bool,
    pub post_pr_id: u16,
    pub buffer_data: bool,
    pub scene_file: Option<String>,
}

/// The model of `Params`.
pub struct ParamsModel {
    pub full_screen: bool,
    pub post_pr_id: u16,
    pub buffer_data: bool,
    pub scene_file: Option<Seq<char>>,
}

impl View for Params {
    type V = ParamsModel;

    open spec fn view(&self) -> ParamsModel {
        ParamsModel {
            full_screen: self.full_screen,
            post_pr_id: self.post_pr_id,
            buffer_data: self.buffer_data,
            scene_file: match &self.scene_file {
                Some(s) => Some(s@),
                None => None,
            },
        }
    }
}

/// The value of a decimal `u16`: an optional `+` and one or more ASCII digits
/// whose value is at most 65535.
pub open spec fn spec_u16(s: Seq<char>) -> Option<u16> {
    let t = if s.len() > 0 && s[0] == '+' {
        s.drop_first()
    } else {
        s
    };
    if t.len() > 0 && (forall|i: int| 0 <= i < t.len() ==> is_digit(#[trigger] t[i])) && decimal(
        digit_values(t),
    ) <= u16::MAX {
        Some(decimal(digit_values(t)) as u16)
    } else {
        None
    }
}

/// Relies on `u16::from_str`: it accepts an optional `+` followed by one or
/// more ASCII digits whose value fits in a `u16`, and nothing else.
#[verifier::external_body]
fn parse_u16(s: &str) -> (r: Option<u16>)
    ensures
        r == spec_u16(s@),
{
    u16::from_str(s).ok()
}

pub open spec fn defaults() -> ParamsModel {
    ParamsModel { full_screen: false, post_pr_id: 0, buffer_data: false, scene_file: None }
}

/// What reading the options `args` does, from the settings `acc`: `-f` sets
/// full screen; `-p` takes the next argument as a post-processing shader
/// number; `-b` asks for geometry to be buffered; `-s` takes the next
/// argument as the scene file. Anything else is an error.
pub open spec fn spec_params(args: Seq<Seq<char>>, acc: ParamsModel) -> Result<ParamsModel, Seq<char>>
    decreases args.len(),
{
    if args.len() == 0 {
        Ok(acc)
    } else {
        let a = args[0];
        if a == "-f"@ {
            spec_params(args.drop_first(), ParamsModel { full_screen: true, ..acc })
        } else if a == "-p"@ {
            if args.len() < 2 {
                Err("No shader for postprocessing given."@)
            } else {
                match spec_u16(args[1]) {
                    Some(id) => spec_params(args.skip(2), ParamsModel { post_pr_id: id, ..acc }),
                    None => Err("Invalid shader for postprocessing given."@),
                }
            }
        } else if a == "-b"@ {
            spec_params(args.drop_first(), ParamsModel { buffer_data: true, ..acc })
        } else if a == "-s"@ {
            if args.len() < 2 {
                Err("No scene config file given."@)
            } else {
                spec_params(args.skip(2), ParamsModel { scene_file: Some(args[1]), ..acc })
            }
        } else {
            Err("Invalid argument given: "@ + a)
        }
    }
}

/// The views of `v`.
pub open spec fn views(v: Seq<String>) -> Seq<Seq<char>> {
    v.map_values(|s: String| s@)
}

/// The arguments after the program's name.
pub open spec fn options_of(params: Seq<String>) -> Seq<Seq<char>> {
    if params.len() == 0 {
        Seq::empty()
    } else {
        views(params).skip(1)
    }
}

/// Reads the command line `params`, whose first entry is the program's name.
pub fn parse_params(params: Vec<String>) -> (r: Result<Params, String>)
    ensures
        match spec_params(options_of(params@), defaults()) {
            Ok(p) => r matches Ok(q) && q@ == p,
            Err(e) => r matches Err(m) && m@ == e,
        },
{
    let mut full_screen = false;
    let mut post_pr_id: u16 = 0;
    let mut buffer_data = false;
    let mut scene_file: Option<String> = None;
    let ghost all = options_of(params@);
    let mut i: usize = 1;
    if params.len() == 0 {
        assert(all =~= Seq::<Seq<char>>::empty());
        return Ok(Params { full_screen, post_pr_id, buffer_data, scene_file });
    }
    assert(views(params@).skip(1) =~= views(params@).skip(i as int));
    while i < params.len()
        invariant
            1 <= i <= params@.len(),
            all == options_of(params@),
            all == views(params@).skip(1),
            spec_params(all, defaults()) == spec_params(
                views(params@).skip(i as int),
                ParamsModel {
                    full_screen,
                    post_pr_id,
                    buffer_data,
                    scene_file: match &scene_file {
                        Some(s) => Some(s@),
                        None => None,
                    },
                },
            ),
        decreases params@.len() - i,
    {
        let ghost rest = views(params@).skip(i as int);
        let param = params[i].as_str();
        assert(rest[0] == param@);
        if str_eq(param, "-f") {
            full_screen = true;
            i += 1;
            assert(rest.drop_first() =~= views(params@).skip(i as int));
        } else if str_eq(param, "-p") {
            if i + 1 >= params.len() {
                return Err("No shader for postprocessing given.".to_owned());
            }
            assert(rest[1] == params@[i + 1]@);
            match parse_u16(params[i + 1].as_str()) {
                Some(id) => {
                    post_pr_id = id;
                },
                None => {
                    return Err("Invalid shader for postprocessing given.".to_owned());
                },
            }
            i += 2;
            assert(rest.skip(2) =~= views(params@).skip(i as int));
        } else if str_eq(param, "-b") {
            buffer_data = true;
            i += 1;
            assert(rest.drop_first() =~= views(params@).skip(i as int));
        } else if str_eq(param, "-s") {
            if i + 1 >= params.len() {
                return Err("No scene config file given.".to_owned());
            }
            assert(rest[1] == params@[i + 1]@);
            scene_file = Some(params[i + 1].as_str().to_owned());
            i += 2;
            assert(rest.skip(2) =~= views(params@).skip(i as int));
        } else {
            let message = "Invalid argument given: ".to_owned();
            return Err(message.concat(param));
        }
    }
    assert(views(params@).skip(i as int) =~= Seq::<Seq<char>>::empty());
    Ok(Params { full_screen, post_pr_id, buffer_data, scene_file })
}

} // verus!
