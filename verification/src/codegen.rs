use vstd::prelude::*;

use crate::compiler::Compiler;
use crate::error::{diag, Diagnostic, DiagnosticV, PanicSite, Reason, Stop, StopV};
use crate::syntax::{
    commands_v, typed_idents_v, Command, CommandKind, CommandKindV, CommandV, TypedIdentifier,
    TypedIdentifierV, VariableType,
};
use crate::vm::MAX_REGISTERS_COUNT;

verus! {

/// An instruction of the virtual machine.
#[derive(Debug)]
#[allow(inconsistent_fields)]
pub enum InstructionKind {
    Nop,
    /// `r(r0) = r(r1)`
    Mov { r0: u8, r1: u8 },
    /// `r(reg) = const(cn)`
    MovC { reg: u8, cn: u16 },
    /// `r(reg) = void`
    MovV { reg: u8 },
    /// `r(r0) = r(r1) + r(r2)`
    Add { r0: u8, r1: u8, r2: u8 },
    /// `r(r0) = r(r1) - r(r2)`
    Sub { r0: u8, r1: u8, r2: u8 },
    /// `r(r0) = r(r1) * r(r2)`
    Mul { r0: u8, r1: u8, r2: u8 },
    /// `r(r0) = r(r1) / r(r2)`
    Div { r0: u8, r1: u8, r2: u8 },
    /// `r(r0) = r(r1) % r(r2)`
    Mod { r0: u8, r1: u8, r2: u8 },
    /// `r(r0) = r(r1) && r(r2)`
    And { r0: u8, r1: u8, r2: u8 },
    /// `r(r0) = r(r1) || r(r2)`
    Or { r0: u8, r1: u8, r2: u8 },
    /// `r(r0) = !r(r1)`
    Not { r0: u8, r1: u8 },
    /// `r(r0) = r(r1) << r(r2)`
    Shl { r0: u8, r1: u8, r2: u8 },
    /// `r(r0) = r(r1) >> r(r2)`
    Shr { r0: u8, r1: u8, r2: u8 },
    /// `r(r0) = r(r1) == r(r2)`
    Eq { r0: u8, r1: u8, r2: u8 },
    /// `r(r0) = r(r1) != r(r2)`
    Neq { r0: u8, r1: u8, r2: u8 },
    /// `r(r0) = r(r1) < r(r2)`
    Lt { r0: u8, r1: u8, r2: u8 },
    /// `r(r0) = r(r1) <= r(r2)`
    Lte { r0: u8, r1: u8, r2: u8 },
    Test { reg: u8 },
    Jmp { pos: u16 },
    Call { pos: u16 },
    NewSpr { r: u8, xsize: u8, ysize: u8 },
    /// `s(spr)[r(pos)] = r(value)`
    SetSpr { spr: u8, pos: u8, value: u8 },
    Int,
    Ret,
    Halt,
}

pub struct Instruction {
    pub kind: InstructionKind,
}

/// A function of the program: its header and the commands of its body.
pub struct FunctionPrototype {
    pub name: String,
    pub args: Vec<TypedIdentifier>,
    pub body: Vec<Command>,
    pub return_type: String,
}

pub struct FunctionV {
    pub name: Seq<char>,
    pub args: Seq<TypedIdentifierV>,
    pub body: Seq<CommandV>,
    pub return_type: Seq<char>,
}

impl View for FunctionPrototype {
    type V = FunctionV;

    open spec fn view(&self) -> FunctionV {
        FunctionV {
            name: self.name@,
            args: typed_idents_v(self.args@),
            body: commands_v(self.body@),
            return_type: self.return_type@,
        }
    }
}

pub open spec fn functions_v(s: Seq<FunctionPrototype>) -> Seq<FunctionV> {
    s.map_values(|f: FunctionPrototype| f@)
}

/// A register of the virtual machine: free, or holding a variable.
pub enum Register {
    Free,
    Variable { name: String, ty: VariableType },
}

/// The body of a function from `cmds[j..]` on, after `body` was read: the
/// commands up to the next `end`. `None` when no `end` follows; a nested
/// function header is an error.
pub open spec fn function_body(cmds: Seq<CommandV>, j: int, body: Seq<CommandV>) -> Result<
    Option<(int, Seq<CommandV>)>,
    DiagnosticV,
>
    decreases cmds.len() - j,
{
    if j >= cmds.len() || j < 0 {
        Ok(None)
    } else if cmds[j].kind is FunctionHeader {
        Err(diag(cmds[j].line_pos, Reason::NestedFunctionDefinition))
    } else if cmds[j].kind is End {
        Ok(Some((j + 1, body)))
    } else {
        function_body(cmds, j + 1, body.push(cmds[j]))
    }
}

/// Whether one of `functions` is named `name`.
pub open spec fn has_function(functions: Seq<FunctionV>, name: Seq<char>) -> bool {
    exists|k: int| 0 <= k < functions.len() && #[trigger] functions[k].name == name
}

/// Splits `cmds[i..]` into the functions, each a header, a body and `end`, and
/// the other commands, after `functions` and `boot` were read from `cmds[..i]`.
pub open spec fn split_program(
    cmds: Seq<CommandV>,
    i: int,
    functions: Seq<FunctionV>,
    boot: Seq<CommandV>,
) -> Result<(Seq<FunctionV>, Seq<CommandV>), DiagnosticV>
    decreases cmds.len() - i,
{
    if i >= cmds.len() || i < 0 {
        Ok((functions, boot))
    } else if cmds[i].kind is FunctionHeader {
        let name = cmds[i].kind->FunctionHeader_name;
        if has_function(functions, name) {
            Err(DiagnosticV { line_pos: cmds[i].line_pos, reason: Reason::DuplicateName, subject: name })
        } else {
            match function_body(cmds, i + 1, Seq::empty()) {
                Err(d) => Err(d),
                Ok(None) => Err(
                    DiagnosticV { line_pos: cmds[i].line_pos, reason: Reason::UnclosedFunction, subject: name },
                ),
                Ok(Some((j, body))) => {
                    proof {
                        lemma_function_body_bounds(cmds, i + 1, Seq::empty());
                    }
                    split_program(
                        cmds,
                        j,
                        functions.push(
                            FunctionV {
                                name,
                                args: cmds[i].kind->FunctionHeader_args,
                                body,
                                return_type: cmds[i].kind->return_type,
                            },
                        ),
                        boot,
                    )
                },
            }
        }
    } else {
        split_program(cmds, i + 1, functions, boot.push(cmds[i]))
    }
}

pub proof fn lemma_function_body_bounds(cmds: Seq<CommandV>, j: int, body: Seq<CommandV>)
    requires
        0 <= j,
    ensures
        function_body(cmds, j, body) matches Ok(Some((k, _))) ==> j < k <= cmds.len(),
    decreases cmds.len() - j,
{
    if j < cmds.len() && !(cmds[j].kind is FunctionHeader) && !(cmds[j].kind is End) {
        lemma_function_body_bounds(cmds, j + 1, body.push(cmds[j]));
    }
}

/// The commands outside of functions that code generation handles: the
/// declarations of new variables.
pub open spec fn is_supported_boot_command(c: CommandV) -> bool {
    c.kind matches CommandKindV::VariableDecl { shadowing, .. } && !shadowing
}

pub open spec fn all_supported(boot: Seq<CommandV>) -> bool {
    forall|k: int| 0 <= k < boot.len() ==> is_supported_boot_command(#[trigger] boot[k])
}

/// Code generation of a command list: the functions and the other commands
/// are split apart (see [`split_program`]); every other command must then
/// declare a new variable, each of which finds a free register. No
/// instruction is produced yet.
pub open spec fn spec_generate(cmds: Seq<CommandV>) -> Result<Seq<FunctionV>, StopV> {
    match split_program(cmds, 0, Seq::empty(), Seq::empty()) {
        Err(d) => Err(StopV::Error(d)),
        Ok((functions, boot)) => if all_supported(boot) {
            Ok(functions)
        } else {
            Err(StopV::Panic(PanicSite::Unimplemented))
        },
    }
}

} // verus!

verus! {

pub open spec fn is_free(r: Register) -> bool {
    r is Free
}

/// The first free register.
pub fn find_free_register(registers: &Vec<Register>) -> (r: Option<usize>)
    ensures
        match r {
            Some(i) => i < registers.len() && is_free(registers@[i as int]) && forall|k: int|
                0 <= k < i ==> !is_free(#[trigger] registers@[k]),
            None => forall|k: int| 0 <= k < registers.len() ==> !is_free(#[trigger] registers@[k]),
        },
{
    let mut i: usize = 0;
    while i < registers.len()
        invariant
            i <= registers.len(),
            forall|k: int| 0 <= k < i ==> !is_free(#[trigger] registers@[k]),
        decreases registers.len() - i,
    {
        if let Register::Free = &registers[i] {
            return Some(i);
        }
        i += 1;
    }
    None
}

pub proof fn lemma_functions_push(s: Seq<FunctionPrototype>, f: FunctionPrototype)
    ensures
        functions_v(s.push(f)) == functions_v(s).push(f@),
{
    assert(functions_v(s.push(f)) =~= functions_v(s).push(f@));
}

pub open spec fn instructions_result_v(r: Result<Vec<Instruction>, Stop>) -> Result<(), StopV> {
    match r {
        Ok(_) => Ok(()),
        Err(s) => Err(s@),
    }
}

pub open spec fn generate_outcome(cmds: Seq<CommandV>) -> Result<(), StopV> {
    match spec_generate(cmds) {
        Ok(_) => Ok(()),
        Err(s) => Err(s),
    }
}

impl Compiler {
    /// Generates the instructions of a program: splits it into functions and
    /// other commands (see [`spec_generate`]). No instruction is produced yet.
    #[verifier::loop_isolation(false)]
    pub fn try_generate_instructions(&self, commands: Vec<Command>) -> (r: Result<Vec<Instruction>, Stop>)
        ensures
            instructions_result_v(r) == generate_outcome(commands_v(commands@)),
            r matches Ok(v) ==> v.len() == 0,
    {
        let ghost cv = commands_v(commands@);
        let n = commands.len();
        // `pending` holds the commands not read yet, the next one last.
        let mut pending: Vec<Command> = Vec::new();
        let mut cmds = commands;
        while cmds.len() > 0
            invariant
                cv.len() == n,
                cmds.len() + pending.len() == n,
                forall|k: int| 0 <= k < cmds.len() ==> (#[trigger] cmds@[k])@ == cv[k],
                forall|k: int| 0 <= k < pending.len() ==> (#[trigger] pending@[k])@ == cv[n - 1 - k],
            decreases cmds.len(),
        {
            let c = cmds.pop().unwrap();
            pending.push(c);
        }

        let mut functions: Vec<FunctionPrototype> = Vec::new();
        let mut boot: Vec<Command> = Vec::new();
        assert(functions_v(functions@) =~= Seq::<FunctionV>::empty());
        assert(commands_v(boot@) =~= Seq::<CommandV>::empty());
        while pending.len() > 0
            invariant
                cv.len() == n,
                pending.len() <= n,
                forall|k: int| 0 <= k < pending.len() ==> (#[trigger] pending@[k])@ == cv[n - 1 - k],
                split_program(cv, n - pending.len(), functions_v(functions@), commands_v(boot@))
                    == split_program(cv, 0, Seq::empty(), Seq::empty()),
            decreases pending.len(),
        {
            let ghost i = n - pending.len();
            let cmd = pending.pop().unwrap();
            assert(cmd@ == cv[i]);
            match cmd.kind {
                CommandKind::FunctionHeader { name, args, return_type } => {
                    let mut f: usize = 0;
                    while f < functions.len()
                        invariant
                            f <= functions.len(),
                            forall|k: int| 0 <= k < f ==> (#[trigger] functions@[k]).name@ != name@,
                        decreases functions.len() - f,
                    {
                        if functions[f].name == name {
                            proof {
                                assert(functions_v(functions@)[f as int].name == name@);
                            }
                            return Err(Stop::Error(Diagnostic { line_pos: cmd.line_pos, reason: Reason::DuplicateName, subject: name }));
                        }
                        f += 1;
                    }
                    proof {
                        if has_function(functions_v(functions@), name@) {
                            let k = choose|k: int| 0 <= k < functions_v(functions@).len() && #[trigger] functions_v(functions@)[k].name == name@;
                            assert(functions@[k].name@ == name@);
                        }
                    }
                    let mut body: Vec<Command> = Vec::new();
                    assert(commands_v(body@) =~= Seq::<CommandV>::empty());
                    loop
                        invariant
                            cv.len() == n,
                            pending.len() < n - i,
                            forall|k: int| 0 <= k < pending.len() ==> (#[trigger] pending@[k])@ == cv[n - 1 - k],
                            function_body(cv, n - pending.len(), commands_v(body@)) == function_body(cv, i + 1, Seq::empty()),
                        decreases pending.len(),
                    {
                        if pending.len() == 0 {
                            return Err(Stop::Error(Diagnostic { line_pos: cmd.line_pos, reason: Reason::UnclosedFunction, subject: name }));
                        }
                        let ghost j = n - pending.len();
                        let c = pending.pop().unwrap();
                        assert(c@ == cv[j]);
                        match c.kind {
                            CommandKind::FunctionHeader { .. } => {
                                return Err(Stop::Error(Diagnostic::new(c.line_pos, Reason::NestedFunctionDefinition)));
                            },
                            CommandKind::End => {
                                assert(cv[j].kind is End);
                                break;
                            },
                            _ => {
                                proof {
                                    crate::parser::lemma_commands_push(body@, c);
                                }
                                body.push(c);
                            },
                        }
                    }
                    assert(function_body(cv, i + 1, Seq::empty()) == Ok::<Option<(int, Seq<CommandV>)>, DiagnosticV>(Some((n - pending.len(), commands_v(body@)))));
                    assert(!has_function(functions_v(functions@), name@));
                    let proto = FunctionPrototype { name, args, body, return_type };
                    proof {
                        lemma_functions_push(functions@, proto);
                    }
                    functions.push(proto);
                },
                _ => {
                    proof {
                        crate::parser::lemma_commands_push(boot@, cmd);
                    }
                    boot.push(cmd);
                },
            }
        }

        assert(split_program(cv, 0, Seq::empty(), Seq::empty()) == Ok::<(Seq<FunctionV>, Seq<CommandV>), DiagnosticV>((functions_v(functions@), commands_v(boot@))));
        let mut registers: Vec<Register> = Vec::new();
        let mut r: usize = 0;
        while r < MAX_REGISTERS_COUNT
            invariant
                r <= MAX_REGISTERS_COUNT,
                registers.len() == r,
                forall|k: int| 0 <= k < r ==> is_free(#[trigger] registers@[k]),
            decreases MAX_REGISTERS_COUNT - r,
        {
            registers.push(Register::Free);
            r += 1;
        }

        let ghost bv = commands_v(boot@);
        let mut b: usize = 0;
        while b < boot.len()
            invariant
                bv == commands_v(boot@),
                b <= boot.len(),
                registers.len() == MAX_REGISTERS_COUNT,
                forall|k: int| 0 <= k < registers.len() ==> is_free(#[trigger] registers@[k]),
                forall|k: int| 0 <= k < b ==> is_supported_boot_command(#[trigger] bv[k]),
            decreases boot.len() - b,
        {
            assert(bv[b as int] == boot@[b as int]@);
            match &boot[b].kind {
                CommandKind::VariableDecl { shadowing, name, .. } => {
                    if *shadowing {
                        assert(!is_supported_boot_command(bv[b as int]));
                        assert(!all_supported(bv));
                        assert(spec_generate(cv) == Err::<Seq<FunctionV>, StopV>(StopV::Panic(PanicSite::Unimplemented)));
                        return Err(Stop::Panic(PanicSite::Unimplemented));
                    }
                    match find_free_register(&registers) {
                        Some(_) => {},
                        None => {
                            assert(is_free(registers@[0]));
                            return Err(Stop::Error(Diagnostic { line_pos: boot[b].line_pos, reason: Reason::FreeRegisterNotFound, subject: name.ident.clone() }));
                        },
                    }
                },
                _ => {
                    assert(!is_supported_boot_command(bv[b as int]));
                    assert(!all_supported(bv));
                    assert(spec_generate(cv) == Err::<Seq<FunctionV>, StopV>(StopV::Panic(PanicSite::Unimplemented)));
                    return Err(Stop::Panic(PanicSite::Unimplemented));
                },
            }
            b += 1;
        }
        Ok(Vec::new())
    }

    /// Generates the instructions of a program (see [`spec_generate`]), on
    /// programs whose commands outside of functions all declare new variables.
    pub fn generate_instructions(&self, commands: Vec<Command>) -> (r: Result<Vec<Instruction>, Diagnostic>)
        requires
            !(generate_outcome(commands_v(commands@)) matches Err(StopV::Panic(_))),
        ensures
            match r {
                Ok(v) => v.len() == 0 && generate_outcome(commands_v(commands@)) == Ok::<(), StopV>(()),
                Err(d) => generate_outcome(commands_v(commands@)) == Err::<(), StopV>(StopV::Error(d@)),
            },
    {
        match self.try_generate_instructions(commands) {
            Ok(v) => Ok(v),
            Err(Stop::Error(d)) => Err(d),
            Err(Stop::Panic(_)) => unreached(),
        }
    }
}

} // verus!

verus! {

/// A function body: no header and no `end` among its commands.
pub open spec fn plain_body(body: Seq<CommandV>) -> bool {
    forall|k: int| 0 <= k < body.len() ==> !(#[trigger] body[k].kind is FunctionHeader) && !(body[k].kind is End)
}

/// Functions with pairwise different names and plain bodies.
pub open spec fn well_split(functions: Seq<FunctionV>) -> bool {
    &&& forall|a: int, b: int| 0 <= a < b < functions.len() ==> #[trigger] functions[a].name != #[trigger] functions[b].name
    &&& forall|k: int| 0 <= k < functions.len() ==> plain_body(#[trigger] functions[k].body)
}

proof fn lemma_function_body_plain(cmds: Seq<CommandV>, j: int, body: Seq<CommandV>)
    requires
        0 <= j,
        plain_body(body),
    ensures
        function_body(cmds, j, body) matches Ok(Some((_, b))) ==> plain_body(b),
    decreases cmds.len() - j,
{
    if j < cmds.len() && !(cmds[j].kind is FunctionHeader) && !(cmds[j].kind is End) {
        let b2 = body.push(cmds[j]);
        assert forall|k: int| 0 <= k < b2.len() implies !(#[trigger] b2[k].kind is FunctionHeader) && !(b2[k].kind is End) by {
            if k < body.len() {
                assert(b2[k] == body[k]);
            }
        }
        lemma_function_body_plain(cmds, j + 1, b2);
    }
}

proof fn lemma_split_program(cmds: Seq<CommandV>, i: int, functions: Seq<FunctionV>, boot: Seq<CommandV>)
    requires
        0 <= i,
        well_split(functions),
    ensures
        split_program(cmds, i, functions, boot) matches Ok((f, _)) ==> well_split(f),
    decreases cmds.len() - i,
{
    if i < cmds.len() {
        if cmds[i].kind is FunctionHeader {
            let name = cmds[i].kind->FunctionHeader_name;
            if !has_function(functions, name) {
                lemma_function_body_plain(cmds, i + 1, Seq::empty());
                if let Ok(Some((j, body))) = function_body(cmds, i + 1, Seq::empty()) {
                    lemma_function_body_bounds(cmds, i + 1, Seq::empty());
                    let fv = FunctionV {
                        name,
                        args: cmds[i].kind->FunctionHeader_args,
                        body,
                        return_type: cmds[i].kind->return_type,
                    };
                    let f2 = functions.push(fv);
                    assert forall|a: int, b: int| 0 <= a < b < f2.len() implies #[trigger] f2[a].name != #[trigger] f2[b].name by {
                        if b == functions.len() {
                            assert(f2[a] == functions[a]);
                            if functions[a].name == name {
                                assert(has_function(functions, name));
                            }
                        } else {
                            assert(f2[a] == functions[a]);
                            assert(f2[b] == functions[b]);
                        }
                    }
                    assert forall|k: int| 0 <= k < f2.len() implies plain_body(#[trigger] f2[k].body) by {
                        if k < functions.len() {
                            assert(f2[k] == functions[k]);
                        }
                    }
                    lemma_split_program(cmds, j, f2, boot);
                }
            }
        } else {
            lemma_split_program(cmds, i + 1, functions, boot.push(cmds[i]));
        }
    }
}

/// A program that code generation accepts has functions with pairwise
/// different names, whose bodies hold neither a function header nor `end`.
pub proof fn law_functions_well_split(cmds: Seq<CommandV>)
    ensures
        spec_generate(cmds) matches Ok(functions) ==> well_split(functions),
{
    lemma_split_program(cmds, 0, Seq::empty(), Seq::empty());
}

} // verus!

verus! {

/// One declaration of a new variable.
pub open spec fn is_new_declaration(c: CommandV) -> bool {
    c.kind matches CommandKindV::VariableDecl { shadowing, .. } && !shadowing
}

/// A function written out: its header, a body with neither a header nor
/// `end`, and `end`.
pub open spec fn is_function_block(b: Seq<CommandV>) -> bool {
    &&& b.len() >= 2
    &&& b[0].kind is FunctionHeader
    &&& b.last().kind is End
    &&& forall|k: int| 1 <= k < b.len() - 1 ==> !(#[trigger] b[k].kind is FunctionHeader) && !(b[k].kind is End)
}

/// A block of a program outside of any function: one declaration of a new
/// variable, or a whole function.
pub open spec fn declaration_or_function(b: Seq<CommandV>) -> bool {
    (b.len() == 1 && is_new_declaration(b[0])) || is_function_block(b)
}

/// The name of a function block.
pub open spec fn block_name(b: Seq<CommandV>) -> Seq<char> {
    b[0].kind->FunctionHeader_name
}

/// No two function blocks share a name.
pub open spec fn distinct_function_names(blocks: Seq<Seq<CommandV>>) -> bool {
    forall|a: int, b: int|
        0 <= a < b < blocks.len() && is_function_block(blocks[a]) && is_function_block(blocks[b])
            ==> #[trigger] block_name(blocks[a]) != #[trigger] block_name(blocks[b])
}

proof fn lemma_function_block_body(cmds: Seq<CommandV>, i: int, b: Seq<CommandV>, k: int)
    requires
        is_function_block(b),
        0 <= i,
        i + b.len() <= cmds.len(),
        cmds.subrange(i, i + b.len()) == b,
        0 <= k <= b.len() - 2,
    ensures
        function_body(cmds, i + 1 + k, b.subrange(1, 1 + k)) == Ok::<Option<(int, Seq<CommandV>)>, DiagnosticV>(
            Some((i + b.len(), b.subrange(1, b.len() - 1))),
        ),
    decreases b.len() - k,
{
    assert(cmds[i + 1 + k] == b[1 + k]);
    if k < b.len() - 2 {
        assert(b.subrange(1, 1 + k).push(b[1 + k]) == b.subrange(1, 1 + k + 1));
        lemma_function_block_body(cmds, i, b, k + 1);
    } else {
        assert(b[1 + k] == b.last());
    }
}

proof fn lemma_split_blocks(
    cmds: Seq<CommandV>,
    i: int,
    blocks: Seq<Seq<CommandV>>,
    functions: Seq<FunctionV>,
    boot: Seq<CommandV>,
)
    requires
        0 <= i <= cmds.len(),
        cmds.subrange(i, cmds.len() as int) == blocks.flatten(),
        forall|k: int| 0 <= k < blocks.len() ==> declaration_or_function(#[trigger] blocks[k]),
        distinct_function_names(blocks),
        forall|k: int|
            0 <= k < blocks.len() && is_function_block(blocks[k]) ==> !has_function(
                functions,
                #[trigger] block_name(blocks[k]),
            ),
        all_supported(boot),
    ensures
        split_program(cmds, i, functions, boot) matches Ok((_, b2)) && all_supported(b2),
    decreases blocks.len(),
{
    if blocks.len() == 0 {
        assert(cmds.subrange(i, cmds.len() as int).len() == 0);
    } else {
        let b = blocks[0];
        let rest = blocks.drop_first();
        assert(blocks.flatten() == b + rest.flatten());
        assert(cmds.subrange(i, i + b.len()) =~= b) by {
            assert forall|k: int| 0 <= k < b.len() implies cmds.subrange(i, i + b.len())[k] == b[k] by {
                assert(cmds.subrange(i, cmds.len() as int)[k] == (b + rest.flatten())[k]);
            }
        }
        assert(cmds.subrange(i + b.len(), cmds.len() as int) =~= rest.flatten()) by {
            assert forall|k: int| 0 <= k < rest.flatten().len() implies cmds.subrange(
                i + b.len(),
                cmds.len() as int,
            )[k] == rest.flatten()[k] by {
                assert(cmds.subrange(i, cmds.len() as int)[b.len() + k] == (b + rest.flatten())[b.len() + k]);
            }
        }
        assert(declaration_or_function(b));
        assert forall|k: int| 0 <= k < rest.len() implies declaration_or_function(#[trigger] rest[k]) by {
            assert(rest[k] == blocks[k + 1]);
        }
        assert(distinct_function_names(rest)) by {
            assert forall|a: int, c: int|
                0 <= a < c < rest.len() && is_function_block(rest[a]) && is_function_block(rest[c])
                    implies #[trigger] block_name(rest[a]) != #[trigger] block_name(rest[c]) by {
                assert(rest[a] == blocks[a + 1] && rest[c] == blocks[c + 1]);
                assert(block_name(blocks[a + 1]) != block_name(blocks[c + 1]));
            }
        }
        assert(cmds[i] == b[0]);
        if is_function_block(b) {
            let name = block_name(b);
            assert(!has_function(functions, name));
            lemma_function_block_body(cmds, i, b, 0);
            assert(b.subrange(1, 1) == Seq::<CommandV>::empty());
            let fv = FunctionV {
                name,
                args: b[0].kind->FunctionHeader_args,
                body: b.subrange(1, b.len() - 1),
                return_type: b[0].kind->return_type,
            };
            let f2 = functions.push(fv);
            assert forall|k: int|
                0 <= k < rest.len() && is_function_block(rest[k]) implies !has_function(
                f2,
                #[trigger] block_name(rest[k]),
            ) by {
                assert(rest[k] == blocks[k + 1]);
                assert(block_name(blocks[0]) != block_name(blocks[k + 1]));
                assert(!has_function(functions, block_name(blocks[k + 1])));
                if has_function(f2, block_name(rest[k])) {
                    let j = choose|j: int| 0 <= j < f2.len() && #[trigger] f2[j].name == block_name(rest[k]);
                    if j < functions.len() {
                        assert(f2[j] == functions[j]);
                    }
                }
            }
            lemma_split_blocks(cmds, i + b.len(), rest, f2, boot);
        } else {
            assert(b.len() == 1 && is_new_declaration(b[0]));
            let boot2 = boot.push(b[0]);
            assert forall|k: int| 0 <= k < boot2.len() implies is_supported_boot_command(#[trigger] boot2[k]) by {
                if k < boot.len() {
                    assert(boot2[k] == boot[k]);
                }
            }
            assert forall|k: int|
                0 <= k < rest.len() && is_function_block(rest[k]) implies !has_function(
                functions,
                #[trigger] block_name(rest[k]),
            ) by {
                assert(rest[k] == blocks[k + 1]);
            }
            lemma_split_blocks(cmds, i + 1, rest, functions, boot2);
        }
    }
}

/// Code generation accepts every program made of declarations of new
/// variables and functions (a header, a body with neither a header nor
/// `end`, and `end`) with pairwise different names, however many
/// declarations it holds.
pub proof fn law_declarations_and_functions_generate(blocks: Seq<Seq<CommandV>>)
    requires
        forall|k: int| 0 <= k < blocks.len() ==> declaration_or_function(#[trigger] blocks[k]),
        distinct_function_names(blocks),
    ensures
        spec_generate(blocks.flatten()) is Ok,
{
    let cmds = blocks.flatten();
    assert(cmds.subrange(0, cmds.len() as int) == cmds);
    lemma_split_blocks(cmds, 0, blocks, Seq::empty(), Seq::empty());
}

} // verus!

verus! {

proof fn lemma_split_no_functions(cmds: Seq<CommandV>, i: int, functions: Seq<FunctionV>, boot: Seq<CommandV>)
    requires
        0 <= i <= cmds.len(),
        forall|k: int| 0 <= k < cmds.len() ==> !(#[trigger] cmds[k].kind is FunctionHeader),
    ensures
        split_program(cmds, i, functions, boot) == Ok::<(Seq<FunctionV>, Seq<CommandV>), DiagnosticV>(
            (functions, boot + cmds.subrange(i, cmds.len() as int)),
        ),
    decreases cmds.len() - i,
{
    if i < cmds.len() {
        assert(!(cmds[i].kind is FunctionHeader));
        lemma_split_no_functions(cmds, i + 1, functions, boot.push(cmds[i]));
        assert(boot.push(cmds[i]) + cmds.subrange(i + 1, cmds.len() as int) =~= boot + cmds.subrange(
            i,
            cmds.len() as int,
        ));
    } else {
        assert(boot + cmds.subrange(i, cmds.len() as int) =~= boot);
    }
}

/// A program without functions generates when every command declares a
/// new variable; any other command outside of a function (a shadowing
/// declaration, an update, a call, a stray `end`) makes code generation give
/// up as not implemented.
pub proof fn law_top_level_commands(cmds: Seq<CommandV>)
    requires
        forall|k: int| 0 <= k < cmds.len() ==> !(#[trigger] cmds[k].kind is FunctionHeader),
    ensures
        spec_generate(cmds) == if forall|k: int| 0 <= k < cmds.len() ==> is_new_declaration(#[trigger] cmds[k]) {
            Ok::<Seq<FunctionV>, StopV>(Seq::empty())
        } else {
            Err::<Seq<FunctionV>, StopV>(StopV::Panic(PanicSite::Unimplemented))
        },
{
    lemma_split_no_functions(cmds, 0, Seq::empty(), Seq::empty());
    assert(Seq::<CommandV>::empty() + cmds.subrange(0, cmds.len() as int) =~= cmds);
}

} // verus!
