//! A limit-order matching engine: a two-sided order book keyed by symbol and
//! price, and two matchers, first-in-first-out and pro-rata, that turn crossing
//! orders into paired execution reports.

use crate::model::domain::{is_white_space, is_white_space_char};
use vstd::prelude::*;

pub mod common;
pub mod formatters;
pub mod matchers;
pub mod model;

verus! {

/// What the command line asks for: the file of orders to start from and the
/// tag of the matching algorithm.
pub struct CmdArgs {
    pub file_path: String,
    pub algo: String,
}

/// The tag of the algorithm that is taken when the command line names none.
pub open spec fn default_algo() -> Seq<char> {
    "FIFO"@
}

/// Reads the command line `args`, whose first entry is the name of the
/// program: the second is the file of orders, the third the algorithm.
/// Without a file the command line is refused.
pub fn get_cmd_args(args: Vec<String>) -> (parsed: Result<CmdArgs, &'static str>)
    ensures
        parsed is Ok <==> args@.len() >= 2,
        parsed is Ok ==> parsed->Ok_0.file_path@ == args@[1]@,
        parsed is Ok ==> parsed->Ok_0.algo@ == if args@.len() >= 3 {
            args@[2]@
        } else {
            default_algo()
        },
        parsed is Err ==> parsed->Err_0@ == "No order file provided"@,
{
    if args.len() < 2 {
        return Err("No order file provided");
    }
    let file_path = args[1].clone();
    let algo = if args.len() >= 3 {
        args[2].clone()
    } else {
        "FIFO".to_owned()
    };
    Ok(CmdArgs { file_path, algo })
}

/// Whether the console is asked for its help text instead of a file of
/// orders.
pub fn wants_help(file_path: &String) -> (help: bool)
    ensures
        help == (file_path@ == "-h"@),
{
    let flag = "-h".to_owned();
    *file_path == flag
}

/// `text` without the white space at its end.
pub open spec fn trim_end_of(text: Seq<char>) -> Seq<char>
    decreases text.len(),
{
    if text.len() > 0 && is_white_space(text.last()) {
        trim_end_of(text.drop_last())
    } else {
        text
    }
}

/// Returns `text` without the white space at its end.
pub fn trim_end(text: &str) -> (trimmed: String)
    ensures
        trimmed@ == trim_end_of(text@),
{
    let mut end = text.unicode_len();
    assert(text@.take(end as int) =~= text@);
    while end > 0 && is_white_space_char(text.get_char(end - 1))
        invariant
            end <= text@.len(),
            trim_end_of(text@.take(end as int)) == trim_end_of(text@),
        decreases end,
    {
        assert(text@.take(end as int).drop_last() =~= text@.take(end - 1));
        end -= 1;
    }
    text.substring_char(0, end).to_owned()
}

/// What the console does with a line that the user typed.
#[derive(Debug)]
pub enum UserCommand {
    /// Leave the program.
    Quit,
    /// Hand in the order that the text writes.
    Order(String),
}

/// Whether a line that the user typed asks to leave: it starts with `q`.
pub open spec fn is_quit_line(line: Seq<char>) -> bool {
    line.len() > 0 && line[0] == 'q'
}

/// Reads a line that the user typed: a line that starts with `q` asks to
/// leave, any other line is an order, written by the line without the white
/// space at its end.
pub fn user_command(line: &str) -> (command: UserCommand)
    ensures
        is_quit_line(line@) ==> command is Quit,
        !is_quit_line(line@) ==> command is Order && command->Order_0@ == trim_end_of(line@),
{
    if line.unicode_len() > 0 && line.get_char(0) == 'q' {
        UserCommand::Quit
    } else {
        UserCommand::Order(trim_end(line))
    }
}

} // verus!
