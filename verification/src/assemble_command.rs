//! The `assemble` command line: its usage text and its two arguments, the source file and
//! the image file.
use vstd::prelude::*;

use crate::text::push_str;

verus! {

/// The usage text of the assembler command invoked as `bin_name`.
pub open spec fn usage_text(bin_name: Seq<char>) -> Seq<char> {
    "Usage:\n  "@ + bin_name + " <input.asm> <output.bin>\n  "@ + bin_name + " help"@
}

/// The usage text of the assembler command invoked as `bin_name`.
pub fn usage(bin_name: &str) -> (r: String)
    ensures
        r@ == usage_text(bin_name@),
{
    let mut v: Vec<char> = Vec::new();
    push_str(&mut v, "Usage:\n  ");
    push_str(&mut v, bin_name);
    push_str(&mut v, " <input.asm> <output.bin>\n  ");
    push_str(&mut v, bin_name);
    push_str(&mut v, " help");
    assert(v@ =~= usage_text(bin_name@));
    crate::chars::chars_to_string(v.as_slice())
}

/// The input and output paths of the assembler command: exactly two arguments.
pub fn parse_args(args: &[String]) -> (r: Result<(String, String), String>)
    ensures
        args@.len() == 2 ==> (r matches Ok((i, o)) && i@ == args@[0]@ && o@ == args@[1]@),
        args@.len() != 2 ==> (r matches Err(m) && m@ == usage_text("kagura assemble"@)),
{
    if args.len() != 2 {
        return Err(usage("kagura assemble"));
    }
    Ok((args[0].clone(), args[1].clone()))
}

} // verus!
