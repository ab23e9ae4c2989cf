use vstd::prelude::*;
use vstd::string::*;
use crate::lexer::{lex_all, tokenize, views, Token};
use crate::parser::{program_parsed, Module, Parser, Stmt};
use crate::text::{chars_of, decimal, digit_char, is_space, push_decimal, push_str, string_of, white};

verus! {

/// A stretch of the output: assembly text, or a script whose printed output is to be
/// placed there as a comment (see `script_comment`).
#[derive(Debug, PartialEq)]
pub enum Piece {
    Asm(String),
    Script(String),
}

/// Register that an unknown variable resolves to.
pub const FALLBACK_REG: u64 = 0;

/// Register that holds the state object of the chance roll when no `math` object exists.
pub const ROLL_REG: u64 = 12;

/// First register handed out to variables.
pub const FIRST_REG: u64 = 12;

/// Register that holds the heap's bump pointer; never handed out to a variable.
pub const BUMP_REG: u64 = 20;

/// Last register handed out to variables (x29 and x30 are the frame and link registers).
pub const LAST_REG: u64 = 28;

/// The register handed out when the counter stands at `c`: the counter itself,
/// past the bump-pointer register.
pub open spec fn fresh_reg(c: u64) -> u64 {
    if c == BUMP_REG {
        21
    } else {
        c
    }
}

/// Position of the first entry of `v` whose key is `k`.
pub open spec fn find_key<T>(v: Seq<(String, T)>, k: Seq<char>) -> Option<nat>
    decreases v.len(),
{
    if v.len() == 0 {
        None
    } else if v[0].0@ == k {
        Some(0)
    } else {
        match find_key(v.drop_first(), k) {
            Some(i) => Some(i + 1),
            None => None,
        }
    }
}

/// Position of the first of `fields` named `f`.
pub open spec fn find_name(fields: Seq<String>, f: Seq<char>) -> Option<nat>
    decreases fields.len(),
{
    if fields.len() == 0 {
        None
    } else if fields[0]@ == f {
        Some(0)
    } else {
        match find_name(fields.drop_first(), f) {
            Some(i) => Some(i + 1),
            None => None,
        }
    }
}

/// Byte offset of field `f` in an object with `fields`: its position times 8, or 0
/// when there is no such field.
pub open spec fn offset_of(fields: Seq<String>, f: Seq<char>) -> nat {
    match find_name(fields, f) {
        Some(i) => i * 8,
        None => 0,
    }
}

/// Byte offset of field `f` in an object of class `fields`.
pub fn field_offset(fields: &Vec<String>, f: &String) -> (r: u64)
    requires
        fields@.len() <= u64::MAX / 8,
    ensures
        r == offset_of(fields@, f@),
{
    let mut i: usize = 0;
    assert(fields@.subrange(0, fields@.len() as int) =~= fields@);
    while i < fields.len()
        invariant
            i <= fields@.len() <= u64::MAX / 8,
            find_name(fields@, f@) == match find_name(fields@.subrange(i as int, fields@.len() as int), f@) {
                Some(j) => Some((j + i) as nat),
                None => None::<nat>,
            },
        decreases fields@.len() - i,
    {
        let ghost rest = fields@.subrange(i as int, fields@.len() as int);
        assert(rest.drop_first() =~= fields@.subrange(i + 1, fields@.len() as int));
        if fields[i] == *f {
            return (i as u64) * 8;
        }
        i = i + 1;
    }
    assert(fields@.subrange(i as int, fields@.len() as int).len() == 0);
    0
}

pub open spec fn lookup_reg(symbols: Seq<(String, u64)>, k: Seq<char>) -> Option<u64> {
    match find_key(symbols, k) {
        Some(i) => Some(symbols[i as int].1),
        None => None,
    }
}

fn find_entry<T>(v: &Vec<(String, T)>, k: &String) -> (r: Option<usize>)
    ensures
        r matches Some(i) ==> find_key(v@, k@) == Some(i as nat) && i < v@.len(),
        r is None ==> find_key(v@, k@) is None,
{
    let mut i: usize = 0;
    assert(v@.subrange(0, v@.len() as int) =~= v@);
    while i < v.len()
        invariant
            i <= v@.len(),
            find_key(v@, k@) == match find_key(v@.subrange(i as int, v@.len() as int), k@) {
                Some(j) => Some((j + i) as nat),
                None => None::<nat>,
            },
        decreases v@.len() - i,
    {
        let ghost rest = v@.subrange(i as int, v@.len() as int);
        assert(rest.drop_first() =~= v@.subrange(i + 1, v@.len() as int));
        if v[i].0 == *k {
            return Some(i);
        }
        i = i + 1;
    }
    assert(v@.subrange(i as int, v@.len() as int).len() == 0);
    None
}

/// The fixed start of every program: map a 4096-byte heap arena into x20 and keep
/// the divisor 10 in x11.
pub open spec fn prologue() -> Seq<char> {
    ".global _start\n.section .text\n\n_start:\n    mov x11, #10\n    mov x0, #0\n    mov x1, #4096\n    mov x2, #3\n    mov x3, #34\n    mov x4, #-1\n    mov x5, #0\n    mov x8, #222\n    svc #0\n    mov x20, x0\n"@
}

/// The fixed end of every program: exit with status 0.
pub open spec fn epilogue() -> Seq<char> {
    "\n    mov x0, #0\n    mov x8, #93\n    svc #0\n"@
}

pub open spec fn reg_text(r: u64) -> Seq<char> {
    "x"@ + decimal(r as nat)
}

/// Branch condition that skips a block guarded by comparison `op`: its negation.
pub open spec fn skip_cond(op: Token) -> Seq<char> {
    match op {
        Token::Equal => "ne"@,
        Token::Greater => "le"@,
        Token::Less => "ge"@,
        _ => "eq"@,
    }
}

/// Instruction for an arithmetic update with `op`.
pub open spec fn update_instr(op: Token) -> Seq<char> {
    match op {
        Token::Minus => "sub"@,
        _ => "add"@,
    }
}

/// One heap allocation: offset from the arena's base and size in bytes.
pub struct Alloc {
    pub base: nat,
    pub size: nat,
}

pub struct Generator {
    pub output: Vec<char>,
    pub pieces: Vec<Piece>,
    pub symbols: Vec<(String, u64)>,
    pub class_map: Vec<(String, Vec<String>)>,
    pub obj_types: Vec<(String, String)>,
    pub modules: Vec<Module>,
    pub expanding: Vec<String>,
    pub reg_count: u64,
    pub label_count: u64,
    pub print_count: u64,
    /// Label ids of the control constructs, in emission order.
    pub labels: Ghost<Seq<nat>>,
    /// Heap allocations, in emission order.
    pub allocs: Ghost<Seq<Alloc>>,
    /// Bytes of the arena handed out so far.
    pub bump: Ghost<nat>,
}

impl Generator {
    /// Text emitted so far since the last script piece.
    pub open spec fn out(&self) -> Seq<char> {
        self.output@
    }

    pub open spec fn label_ids(&self) -> Seq<nat> {
        self.labels@
    }

    pub open spec fn next_label(&self) -> nat {
        self.label_count as nat
    }

    pub open spec fn next_reg(&self) -> nat {
        self.reg_count as nat
    }

    pub open spec fn heap(&self) -> Seq<Alloc> {
        self.allocs@
    }

    pub open spec fn heap_used(&self) -> nat {
        self.bump@
    }

    /// The modules that `Get` can include.
    pub open spec fn included(&self) -> Seq<Module> {
        self.modules@
    }

    /// The same included modules and inclusion stack as `o`.
    pub open spec fn same_context(&self, o: Generator) -> bool {
        self.modules@ == o.modules@ && self.expanding@ == o.expanding@
    }

    pub open spec fn symbol(&self, name: Seq<char>) -> Option<u64> {
        lookup_reg(self.symbols@, name)
    }

    /// The bookkeeping invariant: label ids strictly increase and stay below the
    /// counter; allocations follow each other without gaps from the arena's base.
    pub open spec fn wf(&self) -> bool {
        &&& forall|i: int, j: int|
            0 <= i < j < self.label_ids().len() ==> self.label_ids()[i] < self.label_ids()[j]
        &&& forall|i: int| 0 <= i < self.label_ids().len() ==> self.label_ids()[i] < self.next_label()
        &&& forall|i: int|
            0 <= i < self.heap().len() - 1 ==> self.heap()[i + 1].base == self.heap()[i].base
                + self.heap()[i].size
        &&& self.heap().len() > 0 ==> self.heap()[0].base == 0
        &&& self.heap().len() > 0 ==> self.heap().last().base + self.heap().last().size
            == self.heap_used()
        &&& self.heap().len() == 0 ==> self.heap_used() == 0
    }

    pub fn new() -> (r: Self)
        ensures
            r.wf(),
            fresh(r, Seq::empty()),
            r.out() == prologue(),
            r.next_label() == 0,
            r.next_reg() == FIRST_REG,
            r.label_ids().len() == 0,
            r.heap().len() == 0,
    {
        Self::with_modules(Vec::new())
    }

    /// A generator that expands included modules against `modules`.
    pub fn with_modules(modules: Vec<Module>) -> (r: Self)
        ensures
            r.wf(),
            fresh(r, modules@),
            r.out() == prologue(),
            r.next_label() == 0,
            r.next_reg() == FIRST_REG,
            r.label_ids().len() == 0,
            r.heap().len() == 0,
    {
        let mut output: Vec<char> = Vec::new();
        push_str(
            &mut output,
            ".global _start\n.section .text\n\n_start:\n    mov x11, #10\n    mov x0, #0\n    mov x1, #4096\n    mov x2, #3\n    mov x3, #34\n    mov x4, #-1\n    mov x5, #0\n    mov x8, #222\n    svc #0\n    mov x20, x0\n",
        );
        Generator {
            output,
            pieces: Vec::new(),
            symbols: Vec::new(),
            class_map: Vec::new(),
            obj_types: Vec::new(),
            modules,
            expanding: Vec::new(),
            reg_count: FIRST_REG,
            label_count: 0,
            print_count: 0,
            labels: Ghost(Seq::empty()),
            allocs: Ghost(Seq::empty()),
            bump: Ghost(0),
        }
    }

    fn put(&mut self, s: &str)
        ensures
            final(self).output@ == old(self).output@ + s@,
            final(self).pieces == old(self).pieces,
            final(self).symbols == old(self).symbols,
            final(self).class_map == old(self).class_map,
            final(self).obj_types == old(self).obj_types,
            final(self).modules == old(self).modules,
            final(self).expanding == old(self).expanding,
            final(self).reg_count == old(self).reg_count,
            final(self).label_count == old(self).label_count,
            final(self).print_count == old(self).print_count,
            final(self).labels == old(self).labels,
            final(self).allocs == old(self).allocs,
            final(self).bump == old(self).bump,
    {
        push_str(&mut self.output, s);
    }

    fn put_num(&mut self, v: u64)
        ensures
            final(self).output@ == old(self).output@ + decimal(v as nat),
            final(self).pieces == old(self).pieces,
            final(self).symbols == old(self).symbols,
            final(self).class_map == old(self).class_map,
            final(self).obj_types == old(self).obj_types,
            final(self).modules == old(self).modules,
            final(self).expanding == old(self).expanding,
            final(self).reg_count == old(self).reg_count,
            final(self).label_count == old(self).label_count,
            final(self).print_count == old(self).print_count,
            final(self).labels == old(self).labels,
            final(self).allocs == old(self).allocs,
            final(self).bump == old(self).bump,
    {
        push_decimal(&mut self.output, v);
    }

    fn put_reg(&mut self, r: u64)
        ensures
            final(self).output@ == old(self).output@ + reg_text(r),
            final(self).pieces == old(self).pieces,
            final(self).symbols == old(self).symbols,
            final(self).class_map == old(self).class_map,
            final(self).obj_types == old(self).obj_types,
            final(self).modules == old(self).modules,
            final(self).expanding == old(self).expanding,
            final(self).reg_count == old(self).reg_count,
            final(self).label_count == old(self).label_count,
            final(self).print_count == old(self).print_count,
            final(self).labels == old(self).labels,
            final(self).allocs == old(self).allocs,
            final(self).bump == old(self).bump,
    {
        self.put("x");
        self.put_num(r);
        assert(self.output@ =~= old(self).output@ + reg_text(r));
    }

    /// Register and byte offset that `path` denotes: the register bound to its
    /// first name (the fallback register when unbound or when the path is empty),
    /// and, for `var.field`, the field's offset in the object's class (0 when
    /// unresolved).
    fn get_path_info(&self, path: &Vec<String>) -> (r: (u64, u64))
        ensures
            r.0 == path_reg(self.symbols@, path@),
            r.1 == path_offset(self.obj_types@, self.class_map@, path@),
    {
        if path.len() == 0 {
            return (FALLBACK_REG, 0);
        }
        let base = &path[0];
        let reg = match find_entry(&self.symbols, base) {
            Some(i) => self.symbols[i].1,
            None => FALLBACK_REG,
        };
        let mut offset: u64 = 0;
        if path.len() > 1 {
            if let Some(i) = find_entry(&self.obj_types, base) {
                let c = &self.obj_types[i].1;
                if let Some(k) = find_entry(&self.class_map, c) {
                    let fields = &self.class_map[k].1;
                    if (fields.len() as u64) <= u64::MAX / 8 {
                        offset = field_offset(fields, &path[1]);
                    }
                }
            }
        }
        (reg, offset)
    }

    /// Takes the next label id, unless the ids are used up.
    fn take_label(&mut self) -> (r: Option<u64>)
        requires
            old(self).wf(),
        ensures
            final(self).wf(),
            same_tables(*old(self), *final(self)),
            final(self).output == old(self).output,
            final(self).reg_count == old(self).reg_count,
            final(self).print_count == old(self).print_count,
            final(self).allocs == old(self).allocs,
            final(self).bump == old(self).bump,
            old(self).label_count < u64::MAX ==> r == Some(old(self).label_count)
                && final(self).label_count == old(self).label_count + 1
                && final(self).labels@ == old(self).labels@.push(old(self).label_count as nat),
            old(self).label_count == u64::MAX ==> r is None && final(self).labels == old(self).labels
                && final(self).label_count == old(self).label_count,
            grows(*old(self), *final(self)),
    {
        proof {
            lemma_grows_refl(*old(self));
        }
        if self.label_count == u64::MAX {
            return None;
        }
        let id = self.label_count;
        self.label_count = id + 1;
        self.labels = Ghost(self.labels@.push(id as nat));
        assert(self.label_ids() == old(self).label_ids().push(id as nat));
        assert(self.heap() == old(self).heap());
        assert(self.heap_used() == old(self).heap_used());
        assert(self.label_ids().subrange(0, old(self).label_ids().len() as int) =~= old(self).label_ids());
        assert(self.heap().subrange(0, old(self).heap().len() as int) =~= old(self).heap());
        Some(id)
    }

    /// Takes the next free register: from x12 up to x28, past the bump-pointer
    /// register x20. None once they are used up.
    fn take_reg(&mut self) -> (r: Option<u64>)
        requires
            old(self).wf(),
        ensures
            grows(*old(self), *final(self)),
            frame_but_regs(*old(self), *final(self)),
            final(self).output == old(self).output,
            old(self).reg_count <= LAST_REG ==> r == Some(fresh_reg(old(self).reg_count))
                && final(self).reg_count == fresh_reg(old(self).reg_count) + 1,
            old(self).reg_count > LAST_REG ==> r is None && final(self).reg_count == old(self).reg_count,
    {
        proof {
            lemma_grows_refl(*old(self));
        }
        if self.reg_count > LAST_REG {
            return None;
        }
        let r = if self.reg_count == BUMP_REG {
            BUMP_REG + 1
        } else {
            self.reg_count
        };
        self.reg_count = r + 1;
        proof {
            lemma_same_books_but_regs(*old(self), *self);
        }
        Some(r)
    }

    /// Binds `name` to register `reg`, replacing an earlier binding.
    fn bind(&mut self, name: &String, reg: u64)
        ensures
            lookup_reg(final(self).symbols@, name@) == Some(reg),
            final(self).output == old(self).output,
            final(self).pieces == old(self).pieces,
            final(self).class_map == old(self).class_map,
            final(self).obj_types == old(self).obj_types,
            final(self).modules == old(self).modules,
            final(self).expanding == old(self).expanding,
            final(self).reg_count == old(self).reg_count,
            final(self).label_count == old(self).label_count,
            final(self).print_count == old(self).print_count,
            final(self).labels == old(self).labels,
            final(self).allocs == old(self).allocs,
            final(self).bump == old(self).bump,
    {
        match find_entry(&self.symbols, name) {
            Some(i) => {
                let e = (name.clone(), reg);
                proof {
                    lemma_find_key_set(self.symbols@, i as nat, e, name@);
                }
                self.symbols.set(i, e);
            },
            None => {
                let e = (name.clone(), reg);
                proof {
                    lemma_find_key_push(self.symbols@, e, name@);
                }
                self.symbols.push(e);
            },
        }
    }

    /// Records that `name` holds an object of class `class`.
    fn bind_type(&mut self, name: &String, class: &String)
        ensures
            find_key(final(self).obj_types@, name@) matches Some(i) && final(self).obj_types@[i as int].1@
                == class@,
            final(self).output == old(self).output,
            final(self).pieces == old(self).pieces,
            final(self).symbols == old(self).symbols,
            final(self).class_map == old(self).class_map,
            final(self).modules == old(self).modules,
            final(self).expanding == old(self).expanding,
            final(self).reg_count == old(self).reg_count,
            final(self).label_count == old(self).label_count,
            final(self).print_count == old(self).print_count,
            final(self).labels == old(self).labels,
            final(self).allocs == old(self).allocs,
            final(self).bump == old(self).bump,
    {
        match find_entry(&self.obj_types, name) {
            Some(i) => {
                let e = (name.clone(), class.clone());
                proof {
                    lemma_find_key_set(self.obj_types@, i as nat, e, name@);
                }
                self.obj_types.set(i, e);
            },
            None => {
                let e = (name.clone(), class.clone());
                proof {
                    lemma_find_key_push(self.obj_types@, e, name@);
                }
                self.obj_types.push(e);
            },
        }
    }

    /// Records the field list of class `name`.
    fn define_class(&mut self, name: &String, fields: &Vec<String>)
        ensures
            final(self).output == old(self).output,
            final(self).pieces == old(self).pieces,
            final(self).symbols == old(self).symbols,
            final(self).obj_types == old(self).obj_types,
            final(self).modules == old(self).modules,
            final(self).expanding == old(self).expanding,
            final(self).reg_count == old(self).reg_count,
            final(self).label_count == old(self).label_count,
            final(self).print_count == old(self).print_count,
            final(self).labels == old(self).labels,
            final(self).allocs == old(self).allocs,
            final(self).bump == old(self).bump,
            find_key(final(self).class_map@, name@) matches Some(k) && final(self).class_map@[k as int].1@
                == fields@,
    {
        let copy = copy_names(fields);
        match find_entry(&self.class_map, name) {
            Some(i) => {
                let e = (name.clone(), copy);
                proof {
                    lemma_find_key_set(self.class_map@, i as nat, e, name@);
                }
                self.class_map.set(i, e);
            },
            None => {
                let e = (name.clone(), copy);
                proof {
                    lemma_find_key_push(self.class_map@, e, name@);
                }
                self.class_map.push(e);
            },
        }
    }

    /// Ends the current stretch of assembly text and records a script piece.
    fn put_script(&mut self, script: &String)
        requires
            old(self).wf(),
        ensures
            final(self).wf(),
            script_post(*old(self), *final(self), *script),
            final(self).output@.len() == 0,
            final(self).symbols == old(self).symbols,
            final(self).class_map == old(self).class_map,
            final(self).obj_types == old(self).obj_types,
            final(self).modules == old(self).modules,
            final(self).expanding == old(self).expanding,
            final(self).reg_count == old(self).reg_count,
            final(self).label_count == old(self).label_count,
            final(self).print_count == old(self).print_count,
            final(self).labels == old(self).labels,
            final(self).allocs == old(self).allocs,
            final(self).bump == old(self).bump,
    {
        let text = string_of(&self.output);
        self.pieces.push(Piece::Asm(text));
        self.pieces.push(Piece::Script(script.clone()));
        self.output = Vec::new();
        assert(self.pieces@.subrange(0, old(self).pieces@.len() as int) =~= old(self).pieces@);
        assert(self.label_ids() == old(self).label_ids());
        assert(self.heap() == old(self).heap());
        assert(self.heap_used() == old(self).heap_used());
        assert(self.next_label() == old(self).next_label());
    }

    /// Emits the load of the value that a path denotes into x1.
    fn put_load(&mut self, reg: u64, off: u64, field: bool)
        ensures
            frame(*old(self), *final(self)),
            final(self).output@ == old(self).output@ + load_text(reg, off, field),
    {
        if field {
            self.put("    ldr x1, [");
            self.put_reg(reg);
            self.put(", #");
            self.put_num(off);
            self.put("]\n");
        } else {
            self.put("    mov x1, ");
            self.put_reg(reg);
            self.put("\n");
        }
        assert(self.output@ =~= old(self).output@ + load_text(reg, off, field));
    }

    /// Emits the compare and the branch past a block when the comparison fails.
    fn put_test(&mut self, v: u64, op: &Token, target: &str, id: u64)
        ensures
            frame(*old(self), *final(self)),
            final(self).output@ == old(self).output@ + test_text(v, *op, target@, id),
    {
        self.put("    cmp x1, #");
        self.put_num(v);
        self.put("\n    b.");
        match op {
            Token::Equal => self.put("ne"),
            Token::Greater => self.put("le"),
            Token::Less => self.put("ge"),
            _ => self.put("eq"),
        }
        self.put(" ");
        self.put(target);
        self.put_num(id);
        self.put("\n");
        assert(self.output@ =~= old(self).output@ + test_text(v, *op, target@, id));
    }

    /// Emits the chance roll's state update and the branch past its block.
    fn put_roll(&mut self, m: u64, chance: u64, id: u64)
        ensures
            frame(*old(self), *final(self)),
            final(self).output@ == old(self).output@ + roll_text(m, chance, id),
    {
        self.put("\n    // Chaos Roll ");
        self.put_num(chance);
        self.put("%\n    ldr x1, [");
        self.put_reg(m);
        self.put(", #8]\n    cmp x1, #0\n    b.ne .Lskp");
        self.put_num(id);
        self.put("\n    mrs x1, cntvct_el0\n.Lskp");
        self.put_num(id);
        self.put(":\n    ldr x2, =0x9E3779B97F4A7C15\n    mul x1, x1, x2\n    eor x1, x1, x1, lsr #33\n    str x1, [");
        self.put_reg(m);
        self.put(", #8]\n    and x1, x1, #0x7FFFFFFFFFFFFFFF\n    mov x2, #100\n    udiv x3, x1, x2\n    msub x1, x3, x2, x1\n    cmp x1, #");
        self.put_num(chance);
        self.put("\n    b.hs .Lif");
        self.put_num(id);
        self.put("\n");
        assert(self.output@ =~= old(self).output@ + roll_text(m, chance, id));
    }

    /// Emits the routine that prints the value of register `reg` in decimal.
    fn put_print_var(&mut self, reg: u64, id: u64)
        ensures
            frame(*old(self), *final(self)),
            final(self).output@ == old(self).output@ + print_var_text(reg, id),
    {
        self.put("\n    stp x0, x1, [sp, #-16]!\n    mov x0, ");
        self.put_reg(reg);
        self.put("\n    sub sp, sp, #32\n    mov x1, sp\n    add x1, x1, #31\n    mov w2, #10\n    strb w2, [x1]\n.Lp");
        self.put_num(id);
        self.put(":\n    sub x1, x1, #1\n    udiv x2, x0, x11\n    msub x3, x2, x11, x0\n    add x3, x3, #48\n    strb w3, [x1]\n    mov x0, x2\n    cbnz x0, .Lp");
        self.put_num(id);
        self.put("\n    mov x0, #1\n    mov x2, sp\n    add x2, x2, #32\n    sub x2, x2, x1\n    mov x8, #64\n    svc #0\n    add sp, sp, #32\n    ldp x0, x1, [sp], #16\n");
        assert(self.output@ =~= old(self).output@ + print_var_text(reg, id));
    }

    /// Emits a string literal in the data section and the write of it.
    fn put_print_string(&mut self, text: &String, id: u64)
        ensures
            frame(*old(self), *final(self)),
            text@.len() < u64::MAX ==> final(self).output@ == old(self).output@ + print_string_text(
                text@,
                text@.len() + 1,
                id,
            ),
            text@.len() >= u64::MAX ==> final(self).output == old(self).output,
    {
        let n = text.unicode_len();
        if n as u64 == u64::MAX {
            return;
        }
        self.put("\n.section .data\n.Lstr");
        self.put_num(id);
        self.put(": .ascii \"");
        self.put(text.as_str());
        self.put("\\n\"\n.section .text\n    mov x0, #1\n    adr x1, .Lstr");
        self.put_num(id);
        self.put("\n    mov x2, #");
        self.put_num(n as u64 + 1);
        self.put("\n    mov x8, #64\n    svc #0\n");
        assert(self.output@ =~= old(self).output@ + print_string_text(text@, text@.len() + 1, id));
    }

    /// Emits the code of one statement. `fuel` bounds the nesting of included
    /// modules; an inclusion that would exceed it, or that is already being
    /// expanded, becomes a comment.
    fn gen_stmt(&mut self, stmt: &Stmt, fuel: u64)
        requires
            old(self).wf(),
        ensures
            grows(*old(self), *final(self)),
            stmt matches Stmt::AsmBlock(code) ==> final(self).output@ == old(self).output@ + "    "@ + code@
                + "\n"@,
            stmt matches Stmt::IntelBlock(code) ==> final(self).output@ == old(self).output@
                + "\n    .intel_syntax noprefix\n    "@ + code@ + "\n    .att_syntax\n"@,
            stmt is ClassDef ==> final(self).output == old(self).output,
            stmt matches Stmt::LocalAssign { name, value } ==> local_post(*old(self), *final(self), *name, *value),
            stmt matches Stmt::FieldAssign { path, value } ==> field_assign_post(*old(self), *final(self), path@, *value),
            stmt matches Stmt::FieldMath { path, op, rhs_val } ==> field_math_post(*old(self), *final(self), path@, *op, *rhs_val),
            stmt matches Stmt::PrintVar(name) ==> print_var_post(*old(self), *final(self), *name),
            stmt matches Stmt::PrintString(text) ==> print_string_post(*old(self), *final(self), *text),
            (stmt is IfStmt || stmt is WhileStmt || stmt is ProbIf || stmt is PrintString)
                && old(self).label_count < u64::MAX ==> final(self).label_ids().len() > old(
                self,
            ).label_ids().len() && final(self).label_ids()[old(self).label_ids().len() as int]
                == old(self).label_count,
            (stmt is IfStmt || stmt is ProbIf) && old(self).label_count < u64::MAX ==> ends_with(
                final(self).output@,
                ".Lif"@ + decimal(old(self).label_count as nat) + ":\n"@,
            ),
            stmt is WhileStmt && old(self).label_count < u64::MAX ==> ends_with(
                final(self).output@,
                "    b .Lw_start"@ + decimal(old(self).label_count as nat) + "\n.Lw_end"@ + decimal(
                    old(self).label_count as nat,
                ) + ":\n"@,
            ),
            stmt matches Stmt::HeapAlloc { var_name, class_name } ==> heap_post(*old(self), *final(self), *var_name, *class_name),
            emits(*old(self), *stmt, fuel, *final(self)),
        decreases fuel, stmt,
    {
        match stmt {
            Stmt::MergeBlock { name, source } => {
                if fuel == 0 || contains(&self.expanding, name) {
                    self.put("    // Error: cyclic inclusion of ");
                    self.put(name.as_str());
                    self.put(".hmr\n");
                    proof {
                        lemma_frame_grows(*old(self), *self);
                    }
                    assert(self.output@ =~= old(self).output@ + "    // Error: cyclic inclusion of "@ + name@
                        + ".hmr\n"@);
                    return;
                }
                let tokens = tokenize(source.clone());
                let ghost tokens_seen = tokens@;
                let mut parser = Parser::with_modules(tokens, copy_modules(&self.modules));
                let sub = parser.parse_program();
                self.expanding.push(name.clone());
                let ghost mid = *self;
                proof {
                    assert(mid.label_ids() == old(self).label_ids());
                    assert(mid.heap() == old(self).heap());
                    assert(mid.heap_used() == old(self).heap_used());
                    assert(mid.next_label() == old(self).next_label());
                    lemma_grows_refl(mid);
                }
                self.gen_body(&sub, fuel - 1);
                let ghost inner = *self;
                self.expanding.pop();
                proof {
                    assert(self.expanding@ =~= old(self).expanding@);
                    lemma_rebase(*old(self), mid, inner, *self);
                    assert(expansion(tokens_seen, sub@, mid, inner));
                    assert(emits(*old(self), *stmt, fuel, *self));
                }
            },
            Stmt::PythonBlock(script) => {
                self.put_script(script);
                proof {
                    lemma_same_books(*old(self), *self);
                }
                assert(emits(*old(self), *stmt, fuel, *self));
            },
            Stmt::IntelBlock(code) => {
                self.put("\n    .intel_syntax noprefix\n    ");
                self.put(code.as_str());
                self.put("\n    .att_syntax\n");
                assert(self.output@ =~= old(self).output@ + "\n    .intel_syntax noprefix\n    "@ + code@
                    + "\n    .att_syntax\n"@);
                proof {
                    lemma_same_books(*old(self), *self);
                }
                assert(emits(*old(self), *stmt, fuel, *self));
            },
            Stmt::AsmBlock(code) => {
                self.put("    ");
                self.put(code.as_str());
                self.put("\n");
                assert(self.output@ =~= old(self).output@ + "    "@ + code@ + "\n"@);
                proof {
                    lemma_same_books(*old(self), *self);
                }
                assert(emits(*old(self), *stmt, fuel, *self));
            },
            Stmt::ProbIf { chance, body } => {
                let id = match self.take_label() {
                    Some(id) => id,
                    None => return,
                };
                let ghost mid = *self;
                let m = match find_entry(&self.symbols, &math_name()) {
                    Some(i) => self.symbols[i].1,
                    None => ROLL_REG,
                };
                self.put_roll(m, *chance, id);
                proof {
                    lemma_same_books(mid, *self);
                    lemma_grows_trans(*old(self), mid, *self);
                }
                let ghost g1 = *self;
                self.gen_body(body, fuel);
                let ghost g2 = *self;
                self.put(".Lif");
                self.put_num(id);
                self.put(":\n");
                assert(self.output@ =~= g2.output@ + (".Lif"@ + decimal(id as nat) + ":\n"@));
                assert(self.output@ =~= g2.output@ + ".Lif"@ + decimal(id as nat) + ":\n"@);
                assert(states(g1, g2));
                assert(self.output@.subrange(
                    self.output@.len() - (".Lif"@ + decimal(id as nat) + ":\n"@).len(),
                    self.output@.len() as int,
                ) =~= ".Lif"@ + decimal(id as nat) + ":\n"@);
                proof {
                    lemma_same_books(g2, *self);
                    lemma_grows_trans(g1, g2, *self);
                    lemma_grows_trans(mid, g1, *self);
                    lemma_grows_trans(*old(self), g1, *self);
                    assert(self.label_ids().subrange(0, mid.label_ids().len() as int)[old(self).label_ids().len() as int]
                        == mid.label_ids()[old(self).label_ids().len() as int]);
                    assert(took_label(*old(self), g1));
                    assert(emits(*old(self), *stmt, fuel, *self));
                }
            },
            Stmt::IfStmt { path, op, rhs_val, body } => {
                let id = match self.take_label() {
                    Some(id) => id,
                    None => return,
                };
                let ghost mid = *self;
                let (reg, off) = self.get_path_info(path);
                self.put_load(reg, off, path.len() > 1);
                self.put_test(*rhs_val, op, ".Lif", id);
                assert(self.output@ =~= mid.output@ + (load_text(reg, off, path@.len() > 1) + test_text(
                    *rhs_val,
                    *op,
                    ".Lif"@,
                    id,
                )));
                proof {
                    lemma_same_books(mid, *self);
                    lemma_grows_trans(*old(self), mid, *self);
                }
                let ghost g1 = *self;
                self.gen_body(body, fuel);
                let ghost g2 = *self;
                self.put(".Lif");
                self.put_num(id);
                self.put(":\n");
                assert(self.output@ =~= g2.output@ + (".Lif"@ + decimal(id as nat) + ":\n"@));
                assert(self.output@ =~= g2.output@ + ".Lif"@ + decimal(id as nat) + ":\n"@);
                assert(states(g1, g2));
                assert(self.output@.subrange(
                    self.output@.len() - (".Lif"@ + decimal(id as nat) + ":\n"@).len(),
                    self.output@.len() as int,
                ) =~= ".Lif"@ + decimal(id as nat) + ":\n"@);
                proof {
                    lemma_same_books(g2, *self);
                    lemma_grows_trans(g1, g2, *self);
                    lemma_grows_trans(mid, g1, *self);
                    lemma_grows_trans(*old(self), g1, *self);
                    assert(self.label_ids().subrange(0, mid.label_ids().len() as int)[old(self).label_ids().len() as int]
                        == mid.label_ids()[old(self).label_ids().len() as int]);
                    assert(took_label(*old(self), g1));
                    assert(emits(*old(self), *stmt, fuel, *self));
                }
            },
            Stmt::WhileStmt { path, op, rhs_val, body } => {
                let id = match self.take_label() {
                    Some(id) => id,
                    None => return,
                };
                let ghost mid = *self;
                self.put(".Lw_start");
                self.put_num(id);
                self.put(":\n");
                let (reg, off) = self.get_path_info(path);
                self.put_load(reg, off, path.len() > 1);
                self.put_test(*rhs_val, op, ".Lw_end", id);
                assert(self.output@ =~= mid.output@ + (".Lw_start"@ + decimal(id as nat) + ":\n"@ + load_text(
                    reg,
                    off,
                    path@.len() > 1,
                ) + test_text(*rhs_val, *op, ".Lw_end"@, id)));
                proof {
                    lemma_same_books(mid, *self);
                    lemma_grows_trans(*old(self), mid, *self);
                }
                let ghost g1 = *self;
                self.gen_body(body, fuel);
                let ghost g2 = *self;
                self.put("    b .Lw_start");
                self.put_num(id);
                self.put("\n.Lw_end");
                self.put_num(id);
                self.put(":\n");
                assert(self.output@ =~= g2.output@ + ("    b .Lw_start"@ + decimal(id as nat) + "\n.Lw_end"@
                    + decimal(id as nat) + ":\n"@));
                assert(self.output@ =~= g2.output@ + "    b .Lw_start"@ + decimal(id as nat) + "\n.Lw_end"@
                    + decimal(id as nat) + ":\n"@);
                assert(states(g1, g2));
                assert(self.output@.subrange(
                    self.output@.len() - ("    b .Lw_start"@ + decimal(id as nat) + "\n.Lw_end"@ + decimal(
                        id as nat,
                    ) + ":\n"@).len(),
                    self.output@.len() as int,
                ) =~= "    b .Lw_start"@ + decimal(id as nat) + "\n.Lw_end"@ + decimal(id as nat) + ":\n"@);
                proof {
                    lemma_same_books(g2, *self);
                    lemma_grows_trans(g1, g2, *self);
                    lemma_grows_trans(mid, g1, *self);
                    lemma_grows_trans(*old(self), g1, *self);
                    assert(self.label_ids().subrange(0, mid.label_ids().len() as int)[old(self).label_ids().len() as int]
                        == mid.label_ids()[old(self).label_ids().len() as int]);
                    assert(took_label(*old(self), g1));
                    assert(emits(*old(self), *stmt, fuel, *self));
                }
            },
            Stmt::LocalAssign { name, value } => {
                self.gen_local(name, value);
            },
            Stmt::FieldAssign { path, value } => {
                self.gen_field_assign(path, value);
            },
            Stmt::FieldMath { path, op, rhs_val } => {
                self.gen_field_math(path, op, rhs_val);
            },
            Stmt::PrintVar(name) => {
                self.gen_print_var(name);
            },
            Stmt::PrintString(text) => {
                self.gen_print_string(text);
            },
            Stmt::ClassDef { name, fields } => {
                self.define_class(name, fields);
                proof {
                    lemma_same_books(*old(self), *self);
                }
                assert(emits(*old(self), *stmt, fuel, *self));
            },
            Stmt::HeapAlloc { var_name, class_name } => {
                self.gen_heap_alloc(var_name, class_name);
            },
        }
    }

    fn put_instr(&mut self, op: &Token)
        ensures
            frame(*old(self), *final(self)),
            final(self).output@ == old(self).output@ + update_instr(*op),
    {
        match op {
            Token::Minus => self.put("sub"),
            _ => self.put("add"),
        }
    }

    /// Records an allocation of `size` bytes at the current end of the used arena.
    fn record_alloc(&mut self, size: u64)
        requires
            old(self).wf(),
        ensures
            grows(*old(self), *final(self)),
            final(self).heap() == old(self).heap().push(Alloc { base: old(self).heap_used(), size: size as nat }),
            final(self).heap_used() == old(self).heap_used() + size,
            final(self).output == old(self).output,
            final(self).symbols == old(self).symbols,
            same_tables(*old(self), *final(self)),
            final(self).reg_count == old(self).reg_count,
            final(self).label_count == old(self).label_count,
            final(self).print_count == old(self).print_count,
            final(self).labels == old(self).labels,
    {
        let ghost a = Alloc { base: self.bump@, size: size as nat };
        self.allocs = Ghost(self.allocs@.push(a));
        self.bump = Ghost((self.bump@ + size) as nat);
        assert(self.heap() == old(self).heap().push(a));
        assert(self.label_ids() == old(self).label_ids());
        assert(self.next_label() == old(self).next_label());
        assert(self.heap().subrange(0, old(self).heap().len() as int) =~= old(self).heap());
        assert(self.label_ids().subrange(0, old(self).label_ids().len() as int) =~= old(self).label_ids());
    }

    fn gen_local(&mut self, name: &String, value: &u64)
        requires
            old(self).wf(),
        ensures
            grows(*old(self), *final(self)),
            local_post(*old(self), *final(self), *name, *value),
    {
        let reg = match find_entry(&self.symbols, name) {
            Some(i) => self.symbols[i].1,
            None => {
                let r = match self.take_reg() {
                    Some(r) => r,
                    None => return,
                };
                self.bind(name, r);
                r
            },
        };
        let ghost mid = *self;
        proof {
            lemma_same_books_but_regs(*old(self), mid);
        }
        self.put("    mov ");
        self.put_reg(reg);
        self.put(", #");
        self.put_num(*value);
        self.put("\n");
        proof {
            lemma_same_books(mid, *self);
            lemma_grows_trans(*old(self), mid, *self);
        }
        assert(self.output@ =~= old(self).output@ + "    mov "@ + reg_text(reg) + ", #"@ + decimal(
            *value as nat,
        ) + "\n"@);
    }

    fn gen_field_assign(&mut self, path: &Vec<String>, value: &u64)
        requires
            old(self).wf(),
        ensures
            grows(*old(self), *final(self)),
            field_assign_post(*old(self), *final(self), path@, *value),
    {
        let (reg, off) = self.get_path_info(path);
        if path.len() > 1 {
            self.put("    mov x1, #");
            self.put_num(*value);
            self.put("\n    str x1, [");
            self.put_reg(reg);
            self.put(", #");
            self.put_num(off);
            self.put("]\n");
        } else {
            self.put("    mov ");
            self.put_reg(reg);
            self.put(", #");
            self.put_num(*value);
            self.put("\n");
        }
        proof {
            lemma_same_books(*old(self), *self);
        }
        assert(self.output@ =~= old(self).output@ + if path@.len() > 1 {
            "    mov x1, #"@ + decimal(*value as nat) + "\n    str x1, ["@ + reg_text(reg) + ", #"@
                + decimal(off as nat) + "]\n"@
        } else {
            "    mov "@ + reg_text(reg) + ", #"@ + decimal(*value as nat) + "\n"@
        });
    }

    fn gen_field_math(&mut self, path: &Vec<String>, op: &Token, rhs_val: &u64)
        requires
            old(self).wf(),
        ensures
            grows(*old(self), *final(self)),
            field_math_post(*old(self), *final(self), path@, *op, *rhs_val),
    {
        let (reg, off) = self.get_path_info(path);
        if path.len() > 1 {
            self.put("    ldr x1, [");
            self.put_reg(reg);
            self.put(", #");
            self.put_num(off);
            self.put("]\n    ");
            self.put_instr(op);
            self.put(" x1, x1, #");
            self.put_num(*rhs_val);
            self.put("\n    str x1, [");
            self.put_reg(reg);
            self.put(", #");
            self.put_num(off);
            self.put("]\n");
        } else {
            self.put("    ");
            self.put_instr(op);
            self.put(" ");
            self.put_reg(reg);
            self.put(", ");
            self.put_reg(reg);
            self.put(", #");
            self.put_num(*rhs_val);
            self.put("\n");
        }
        proof {
            lemma_same_books(*old(self), *self);
        }
        assert(self.output@ =~= old(self).output@ + if path@.len() > 1 {
            "    ldr x1, ["@ + reg_text(reg) + ", #"@ + decimal(off as nat) + "]\n    "@
                + update_instr(*op) + " x1, x1, #"@ + decimal(*rhs_val as nat) + "\n    str x1, ["@
                + reg_text(reg) + ", #"@ + decimal(off as nat) + "]\n"@
        } else {
            "    "@ + update_instr(*op) + " "@ + reg_text(reg) + ", "@ + reg_text(reg) + ", #"@
                + decimal(*rhs_val as nat) + "\n"@
        });
    }

    fn gen_print_var(&mut self, name: &String)
        requires
            old(self).wf(),
        ensures
            grows(*old(self), *final(self)),
            print_var_post(*old(self), *final(self), *name),
    {
        if let Some(i) = find_entry(&self.symbols, name) {
            let reg = self.symbols[i].1;
            if self.print_count < u64::MAX {
                let id = self.print_count;
                self.print_count = id + 1;
                let ghost mid = *self;
                proof {
                    lemma_same_books(*old(self), mid);
                }
                self.put_print_var(reg, id);
                proof {
                    lemma_same_books(mid, *self);
                    lemma_grows_trans(*old(self), mid, *self);
                }
                return;
            }
        }
        proof {
            lemma_grows_refl(*old(self));
        }
    }

    fn gen_print_string(&mut self, text: &String)
        requires
            old(self).wf(),
        ensures
            grows(*old(self), *final(self)),
            print_string_post(*old(self), *final(self), *text),
            final(self).label_ids().len() > old(self).label_ids().len() || old(self).label_count == u64::MAX,
            old(self).label_count < u64::MAX ==> final(self).label_ids()[old(self).label_ids().len() as int]
                == old(self).label_count,
    {
        let id = match self.take_label() {
            Some(id) => id,
            None => return,
        };
        let ghost mid = *self;
        self.put_print_string(text, id);
        proof {
            lemma_same_books(mid, *self);
            lemma_grows_trans(*old(self), mid, *self);
            assert(self.label_ids() == mid.label_ids());
        }
    }

    fn gen_heap_alloc(&mut self, var_name: &String, class_name: &String)
        requires
            old(self).wf(),
        ensures
            grows(*old(self), *final(self)),
            heap_post(*old(self), *final(self), *var_name, *class_name),
    {
        let reg = match self.take_reg() {
            Some(r) => r,
            None => return,
        };
        self.bind(var_name, reg);
        self.bind_type(var_name, class_name);
        let ghost mid = *self;
        proof {
            lemma_same_books_but_regs(*old(self), mid);
        }
        if let Some(k) = find_entry(&self.class_map, class_name) {
            let n = self.class_map[k].1.len();
            if (n as u64) <= u64::MAX / 8 {
                let size = (n as u64) * 8;
                self.put("    mov ");
                self.put_reg(reg);
                self.put(", x20\n    add x20, x20, #");
                self.put_num(size);
                self.put("\n");
                self.record_alloc(size);
                proof {
                    lemma_grows_trans(*old(self), mid, *self);
                }
                assert(self.output@ =~= old(self).output@ + "    mov "@ + reg_text(reg)
                    + ", x20\n    add x20, x20, #"@ + decimal((n * 8) as nat) + "\n"@);
            }
        }
    }

    /// Emits the code of `ast` followed by the exit sequence, and hands out the
    /// output: stretches of assembly text, with a script piece wherever an
    /// embedded script's output belongs. The last piece is assembly text that ends
    /// with the exit sequence.
    pub fn generate(&mut self, ast: Vec<Stmt>) -> (r: Vec<Piece>)
        requires
            old(self).wf(),
        ensures
            final(self).wf(),
            exists|mid: Generator|
                #[trigger] state(mid) && body_emits(
                    *old(self),
                    ast@,
                    0,
                    fuel_for(old(self).included().len()),
                    mid,
                ) && finished(mid, r@),
    {
        let n = self.modules.len();
        let fuel: u64 = if (n as u64) < u64::MAX {
            n as u64 + 1
        } else {
            n as u64
        };
        self.gen_body(&ast, fuel);
        let ghost g1 = *self;
        self.put("\n    mov x0, #0\n    mov x8, #93\n    svc #0\n");
        let text = string_of(&self.output);
        self.output = Vec::new();
        let mut pieces: Vec<Piece> = Vec::new();
        std::mem::swap(&mut pieces, &mut self.pieces);
        pieces.push(Piece::Asm(text));
        proof {
            lemma_same_books(g1, *self);
            assert(pieces@.subrange(0, g1.pieces@.len() as int) =~= g1.pieces@);
            assert(state(g1));
        }
        pieces
    }

    /// Emits the statements of a block in order.
    fn gen_body(&mut self, body: &Vec<Stmt>, fuel: u64)
        requires
            old(self).wf(),
        ensures
            grows(*old(self), *final(self)),
            body_emits(*old(self), body@, 0, fuel, *final(self)),
        decreases fuel, body,
    {
        proof {
            lemma_grows_refl(*old(self));
        }
        let ghost mut gs: Seq<Generator> = seq![*self];
        let mut i: usize = 0;
        while i < body.len()
            invariant
                grows(*old(self), *self),
                i <= body@.len(),
                emit_chain(gs, body@.subrange(0, i as int), fuel),
                gs[0] == *old(self),
                gs.last() == *self,
            decreases body@.len() - i,
        {
            let ghost before = *self;
            self.gen_stmt(&body[i], fuel);
            proof {
                lemma_grows_trans(*old(self), before, *self);
                lemma_emit_chain_push(gs, body@.subrange(0, i as int), fuel, body@[i as int], *self);
                assert(body@.subrange(0, i as int).push(body@[i as int]) =~= body@.subrange(0, i + 1));
                gs = gs.push(*self);
            }
            i = i + 1;
        }
        proof {
            assert(body@.subrange(0, i as int) =~= body@);
            lemma_emit_chain(gs, body@, fuel, 0);
        }
    }
}

/// Compiles a source text: lexes and parses it, with `modules` as the files that
/// `Get` can include, and generates the program.
pub fn compile(source: String, modules: Vec<Module>) -> (r: Vec<Piece>)
    ensures
        exists|toks: Seq<Token>, ast: Seq<Stmt>, g0: Generator, mid: Generator|
            #[trigger] run(toks, ast, g0, mid) && views(toks) == lex_all(source@, 0) && program_parsed(
                toks,
                0,
                modules@,
                ast,
                0,
            ) && fresh(g0, modules@) && body_emits(g0, ast, 0, fuel_for(modules@.len()), mid) && finished(mid, r@),
{
    let ghost src = source@;
    let ghost mods = modules@;
    let tokens = tokenize(source);
    let ghost toks = tokens@;
    let mut parser = Parser::with_modules(tokens, copy_modules(&modules));
    let ast = parser.parse_program();
    let ghost ast_seen = ast@;
    let mut generator = Generator::with_modules(modules);
    let ghost g0 = generator;
    let r = generator.generate(ast);
    proof {
        let mid = choose|mid: Generator|
            #[trigger] state(mid) && body_emits(g0, ast_seen, 0, fuel_for(g0.included().len()), mid) && finished(
                mid,
                r@,
            );
        assert(run(toks, ast_seen, g0, mid));
    }
    r
}

/// Leading characters of `s` after its leading whitespace.
pub open spec fn trim_start(s: Seq<char>) -> Seq<char>
    decreases s.len(),
{
    if s.len() > 0 && white(s[0]) {
        trim_start(s.drop_first())
    } else {
        s
    }
}

/// `s` without its trailing whitespace.
pub open spec fn trim_end(s: Seq<char>) -> Seq<char>
    decreases s.len(),
{
    if s.len() > 0 && white(s.last()) {
        trim_end(s.drop_last())
    } else {
        s
    }
}

/// The comment that stands for an embedded script in the assembly: the script's
/// printed output with surrounding whitespace removed.
pub fn script_comment(printed: &String) -> (r: String)
    ensures
        r@ == "\n    // Python Output: "@ + trim_end(trim_start(printed@)) + "\n"@,
{
    let v = chars_of(printed);
    let mut a: usize = 0;
    assert(v@.subrange(0, v@.len() as int) =~= v@);
    while a < v.len() && is_space(v[a])
        invariant
            a <= v@.len(),
            trim_start(v@.subrange(a as int, v@.len() as int)) == trim_start(v@),
        decreases v@.len() - a,
    {
        assert(v@.subrange(a as int, v@.len() as int).drop_first() =~= v@.subrange(a + 1, v@.len() as int));
        a = a + 1;
    }
    let mut b: usize = v.len();
    let ghost mid = v@.subrange(a as int, v@.len() as int);
    assert(trim_start(mid) == mid);
    while b > a && is_space(v[b - 1])
        invariant
            a <= b <= v@.len(),
            trim_end(v@.subrange(a as int, b as int)) == trim_end(mid),
        decreases b - a,
    {
        assert(v@.subrange(a as int, b as int).drop_last() =~= v@.subrange(a as int, b - 1));
        b = b - 1;
    }
    let mut out: Vec<char> = Vec::new();
    push_str(&mut out, "\n    // Python Output: ");
    let mut k = a;
    while k < b
        invariant
            a <= k <= b <= v@.len(),
            out@ == "\n    // Python Output: "@ + v@.subrange(a as int, k as int),
        decreases b - k,
    {
        out.push(v[k]);
        k = k + 1;
        assert(out@ =~= "\n    // Python Output: "@ + v@.subrange(a as int, k as int));
    }
    push_str(&mut out, "\n");
    assert(trim_start(v@) == mid);
    string_of(&out)
}

/// `b` is `a` after more code was emitted: the same modules and inclusion
/// stack, the earlier label ids and allocations kept, counters not smaller, and
/// the bookkeeping invariant.
pub open spec fn grows(a: Generator, b: Generator) -> bool {
    &&& b.wf()
    &&& b.label_ids().len() >= a.label_ids().len()
    &&& b.label_ids().subrange(0, a.label_ids().len() as int) == a.label_ids()
    &&& b.next_label() >= a.next_label()
    &&& b.heap().len() >= a.heap().len()
    &&& b.heap().subrange(0, a.heap().len() as int) == a.heap()
    &&& b.next_reg() >= a.next_reg()
    &&& b.same_context(a)
}

proof fn lemma_grows_refl(a: Generator)
    requires
        a.wf(),
    ensures
        grows(a, a),
{
    assert(a.label_ids().subrange(0, a.label_ids().len() as int) =~= a.label_ids());
    assert(a.heap().subrange(0, a.heap().len() as int) =~= a.heap());
}

proof fn lemma_grows_trans(a: Generator, b: Generator, c: Generator)
    requires
        grows(a, b),
        grows(b, c),
    ensures
        grows(a, c),
{
    assert(c.label_ids().subrange(0, a.label_ids().len() as int) =~= b.label_ids().subrange(
        0,
        a.label_ids().len() as int,
    ));
    assert(c.heap().subrange(0, a.heap().len() as int) =~= b.heap().subrange(0, a.heap().len() as int));
}

/// Code emitted without touching the label ids, allocations or register counter.
proof fn lemma_same_books(a: Generator, b: Generator)
    requires
        a.wf(),
        a.labels == b.labels,
        a.label_count == b.label_count,
        a.allocs == b.allocs,
        a.bump == b.bump,
        a.reg_count == b.reg_count,
        a.modules == b.modules,
        a.expanding == b.expanding,
    ensures
        grows(a, b),
{
    assert(b.label_ids() == a.label_ids());
    assert(b.heap() == a.heap());
    assert(b.heap_used() == a.heap_used());
    assert(b.next_label() == a.next_label());
    lemma_grows_refl(a);
}

/// Everything but the current text and the register counter is the same.
pub open spec fn frame_but_regs(a: Generator, b: Generator) -> bool {
    &&& same_tables(a, b)
    &&& a.label_count == b.label_count
    &&& a.print_count == b.print_count
    &&& a.labels == b.labels
    &&& a.allocs == b.allocs
    &&& a.bump == b.bump
}

proof fn lemma_same_books_but_regs(a: Generator, b: Generator)
    requires
        a.wf(),
        a.labels == b.labels,
        a.label_count == b.label_count,
        a.allocs == b.allocs,
        a.bump == b.bump,
        a.reg_count <= b.reg_count,
        a.modules == b.modules,
        a.expanding == b.expanding,
    ensures
        grows(a, b),
{
    assert(b.label_ids() == a.label_ids());
    assert(b.heap() == a.heap());
    assert(b.heap_used() == a.heap_used());
    assert(b.next_label() == a.next_label());
    lemma_grows_refl(a);
}

/// Growth from `m` to `c` is growth from `a` to `b` when `a` and `m`, and `b` and
/// `c`, differ only outside the bookkeeping, and `a` and `b` share their context.
proof fn lemma_rebase(a: Generator, m: Generator, c: Generator, b: Generator)
    requires
        grows(m, c),
        a.labels == m.labels,
        a.label_count == m.label_count,
        a.allocs == m.allocs,
        a.bump == m.bump,
        a.reg_count == m.reg_count,
        b.labels == c.labels,
        b.label_count == c.label_count,
        b.allocs == c.allocs,
        b.bump == c.bump,
        b.reg_count == c.reg_count,
        b.modules@ == a.modules@,
        b.expanding@ == a.expanding@,
    ensures
        grows(a, b),
{
    assert(b.label_ids() == c.label_ids());
    assert(b.heap() == c.heap());
    assert(b.heap_used() == c.heap_used());
    assert(b.next_label() == c.next_label());
    assert(a.label_ids() == m.label_ids());
    assert(a.heap() == m.heap());
    assert(a.next_label() == m.next_label());
}

proof fn lemma_frame_grows(a: Generator, b: Generator)
    requires
        a.wf(),
        frame(a, b),
    ensures
        grows(a, b),
{
    assert(b.label_ids() == a.label_ids());
    assert(b.heap() == a.heap());
    assert(b.heap_used() == a.heap_used());
    assert(b.next_label() == a.next_label());
    lemma_grows_refl(a);
}

/// Whether `name` is among `v`.
fn contains(v: &Vec<String>, name: &String) -> (r: bool)
    ensures
        r == exists|k: int| 0 <= k < v@.len() && v@[k]@ == name@,
{
    let mut i: usize = 0;
    while i < v.len()
        invariant
            i <= v@.len(),
            forall|k: int| 0 <= k < i ==> v@[k]@ != name@,
        decreases v@.len() - i,
    {
        if v[i] == *name {
            return true;
        }
        i = i + 1;
    }
    false
}

fn copy_modules(v: &Vec<Module>) -> (r: Vec<Module>)
    ensures
        r@ == v@,
{
    let mut r: Vec<Module> = Vec::new();
    let mut i: usize = 0;
    while i < v.len()
        invariant
            i <= v@.len(),
            r@ == v@.subrange(0, i as int),
        decreases v@.len() - i,
    {
        r.push(Module { name: v[i].name.clone(), source: v[i].source.clone() });
        i = i + 1;
        assert(r@ =~= v@.subrange(0, i as int));
    }
    assert(v@.subrange(0, v@.len() as int) =~= v@);
    r
}

/// The name of the object that holds the chance roll's state.
fn math_name() -> (r: String)
    ensures
        r@ == "math"@,
{
    let mut v: Vec<char> = Vec::new();
    push_str(&mut v, "math");
    string_of(&v)
}

/// The tables other than the symbols, the scripts, the label and print counters
/// and the heap records are the same.
pub open spec fn keeps_books(a: Generator, b: Generator) -> bool {
    &&& a.pieces == b.pieces
    &&& a.class_map == b.class_map
    &&& a.obj_types == b.obj_types
    &&& a.modules == b.modules
    &&& a.expanding == b.expanding
    &&& a.label_count == b.label_count
    &&& a.print_count == b.print_count
    &&& a.labels == b.labels
    &&& a.allocs == b.allocs
    &&& a.bump == b.bump
}

pub open spec fn local_post(a: Generator, b: Generator, name: String, value: u64) -> bool {
    &&& keeps_books(a, b)
    &&& match lookup_reg(a.symbols@, name@) {
        Some(r) => b.symbols == a.symbols && b.reg_count == a.reg_count && b.output@ == a.output@
            + "    mov "@ + reg_text(r) + ", #"@ + decimal(value as nat) + "\n"@,
        None => if a.reg_count <= LAST_REG {
            let r = fresh_reg(a.reg_count);
            &&& b.reg_count == r + 1 as nat
            &&& lookup_reg(b.symbols@, name@) == Some(r)
            &&& b.output@ == a.output@ + "    mov "@ + reg_text(r) + ", #"@ + decimal(value as nat) + "\n"@
        } else {
            b.symbols == a.symbols && b.reg_count == a.reg_count && b.output == a.output
        },
    }
}

pub open spec fn field_assign_post(a: Generator, b: Generator, path: Seq<String>, value: u64) -> bool {
    let reg = path_reg(a.symbols@, path);
    let off = path_offset(a.obj_types@, a.class_map@, path);
    &&& frame(a, b)
    &&& b.output@ == a.output@ + if path.len() > 1 {
        "    mov x1, #"@ + decimal(value as nat) + "\n    str x1, ["@ + reg_text(reg) + ", #"@ + decimal(off as nat)
            + "]\n"@
    } else {
        "    mov "@ + reg_text(reg) + ", #"@ + decimal(value as nat) + "\n"@
    }
}

pub open spec fn field_math_post(a: Generator, b: Generator, path: Seq<String>, op: Token, rhs_val: u64) -> bool {
    let reg = path_reg(a.symbols@, path);
    let off = path_offset(a.obj_types@, a.class_map@, path);
    &&& frame(a, b)
    &&& b.output@ == a.output@ + if path.len() > 1 {
        "    ldr x1, ["@ + reg_text(reg) + ", #"@ + decimal(off as nat) + "]\n    "@ + update_instr(op)
            + " x1, x1, #"@ + decimal(rhs_val as nat) + "\n    str x1, ["@ + reg_text(reg) + ", #"@ + decimal(
            off as nat,
        ) + "]\n"@
    } else {
        "    "@ + update_instr(op) + " "@ + reg_text(reg) + ", "@ + reg_text(reg) + ", #"@ + decimal(
            rhs_val as nat,
        ) + "\n"@
    }
}

pub open spec fn print_var_post(a: Generator, b: Generator, name: String) -> bool {
    &&& same_tables(a, b)
    &&& a.reg_count == b.reg_count
    &&& a.label_count == b.label_count
    &&& a.labels == b.labels
    &&& a.allocs == b.allocs
    &&& a.bump == b.bump
    &&& if lookup_reg(a.symbols@, name@) is Some && a.print_count < u64::MAX {
        b.print_count == a.print_count + 1 && b.output@ == a.output@ + print_var_text(
            lookup_reg(a.symbols@, name@)->Some_0,
            a.print_count,
        )
    } else {
        b.print_count == a.print_count && b.output == a.output
    }
}

/// `b` is `a` with the next label id taken and nothing else changed.
pub open spec fn took_label(a: Generator, b: Generator) -> bool {
    &&& same_tables(a, b)
    &&& a.reg_count == b.reg_count
    &&& a.print_count == b.print_count
    &&& a.allocs == b.allocs
    &&& a.bump == b.bump
    &&& b.label_count == a.label_count + 1
    &&& b.labels@ == a.labels@.push(a.label_count as nat)
}

pub open spec fn print_string_post(a: Generator, b: Generator, text: String) -> bool {
    if a.label_count < u64::MAX && text@.len() < u64::MAX {
        took_label(a, b) && b.output@ == a.output@ + print_string_text(text@, text@.len() + 1, a.label_count)
    } else if a.label_count < u64::MAX {
        took_label(a, b) && b.output == a.output
    } else {
        frame(a, b) && b.output == a.output
    }
}

pub open spec fn heap_post(a: Generator, b: Generator, var_name: String, class_name: String) -> bool {
    &&& a.pieces == b.pieces
    &&& a.class_map == b.class_map
    &&& a.modules == b.modules
    &&& a.expanding == b.expanding
    &&& a.label_count == b.label_count
    &&& a.print_count == b.print_count
    &&& a.labels == b.labels
    &&& if a.reg_count <= LAST_REG {
        let r = fresh_reg(a.reg_count);
        &&& b.reg_count == r + 1 as nat
        &&& lookup_reg(b.symbols@, var_name@) == Some(r)
        &&& find_key(b.obj_types@, var_name@) matches Some(i) && b.obj_types@[i as int].1@ == class_name@
        &&& match find_key(a.class_map@, class_name@) {
            Some(k) => {
                let n = a.class_map@[k as int].1@.len();
                if n <= u64::MAX / 8 {
                    &&& b.heap() == a.heap().push(Alloc { base: a.heap_used(), size: n * 8 })
                    &&& b.heap_used() == a.heap_used() + n * 8
                    &&& b.output@ == a.output@ + "    mov "@ + reg_text(r) + ", x20\n    add x20, x20, #"@
                        + decimal(n * 8) + "\n"@
                } else {
                    b.allocs == a.allocs && b.bump == a.bump && b.output == a.output
                }
            },
            None => b.allocs == a.allocs && b.bump == a.bump && b.output == a.output,
        }
    } else {
        b == a
    }
}

/// Whether `s` ends with `tail`.
pub open spec fn ends_with(s: Seq<char>, tail: Seq<char>) -> bool {
    s.len() >= tail.len() && s.subrange(s.len() - tail.len(), s.len() as int) == tail
}

/// Everything but the current text is the same.
pub open spec fn frame(a: Generator, b: Generator) -> bool {
    &&& same_tables(a, b)
    &&& a.reg_count == b.reg_count
    &&& a.label_count == b.label_count
    &&& a.print_count == b.print_count
    &&& a.labels == b.labels
    &&& a.allocs == b.allocs
    &&& a.bump == b.bump
}

/// Load of a path's value into x1: from memory for a field, else from its register.
pub open spec fn load_text(reg: u64, off: u64, field: bool) -> Seq<char> {
    if field {
        "    ldr x1, ["@ + reg_text(reg) + ", #"@ + decimal(off as nat) + "]\n"@
    } else {
        "    mov x1, "@ + reg_text(reg) + "\n"@
    }
}

/// Compare x1 with `v` and branch to `target` + `id` when comparison `op` fails.
pub open spec fn test_text(v: u64, op: Token, target: Seq<char>, id: u64) -> Seq<char> {
    "    cmp x1, #"@ + decimal(v as nat) + "\n    b."@ + skip_cond(op) + " "@ + target + decimal(id as nat)
        + "\n"@
}

/// The chance roll on the state word at offset 8 of the object in register `m`:
/// reseed a zero state from the cycle counter, mix it, store it back, and skip the
/// block unless the mixed value (sign bit cleared) mod 100 is below `chance`. The
/// mix is `roll::mix` and the test is `roll::passes`.
pub open spec fn roll_text(m: u64, chance: u64, id: u64) -> Seq<char> {
    "\n    // Chaos Roll "@ + decimal(chance as nat) + "%\n    ldr x1, ["@ + reg_text(m)
        + ", #8]\n    cmp x1, #0\n    b.ne .Lskp"@ + decimal(id as nat) + "\n    mrs x1, cntvct_el0\n.Lskp"@
        + decimal(id as nat)
        + ":\n    ldr x2, =0x9E3779B97F4A7C15\n    mul x1, x1, x2\n    eor x1, x1, x1, lsr #33\n    str x1, ["@
        + reg_text(m)
        + ", #8]\n    and x1, x1, #0x7FFFFFFFFFFFFFFF\n    mov x2, #100\n    udiv x3, x1, x2\n    msub x1, x3, x2, x1\n    cmp x1, #"@
        + decimal(chance as nat) + "\n    b.hs .Lif"@ + decimal(id as nat) + "\n"@
}

/// The decimal print routine for register `reg`, with loop label `.Lp<id>`. It
/// divides without sign, so the register is printed as an unsigned 64-bit value.
/// The bytes it writes are `printed_digits(v, "\n")` (see `lemma_print_decimal`).
pub open spec fn print_var_text(reg: u64, id: u64) -> Seq<char> {
    "\n    stp x0, x1, [sp, #-16]!\n    mov x0, "@ + reg_text(reg)
        + "\n    sub sp, sp, #32\n    mov x1, sp\n    add x1, x1, #31\n    mov w2, #10\n    strb w2, [x1]\n.Lp"@
        + decimal(id as nat)
        + ":\n    sub x1, x1, #1\n    udiv x2, x0, x11\n    msub x3, x2, x11, x0\n    add x3, x3, #48\n    strb w3, [x1]\n    mov x0, x2\n    cbnz x0, .Lp"@
        + decimal(id as nat)
        + "\n    mov x0, #1\n    mov x2, sp\n    add x2, x2, #32\n    sub x2, x2, x1\n    mov x8, #64\n    svc #0\n    add sp, sp, #32\n    ldp x0, x1, [sp], #16\n"@
}

/// A string literal `.Lstr<id>` with a newline in the data section, and a write of
/// its `len` bytes to standard output.
pub open spec fn print_string_text(text: Seq<char>, len: nat, id: u64) -> Seq<char> {
    "\n.section .data\n.Lstr"@ + decimal(id as nat) + ": .ascii \""@ + text
        + "\\n\"\n.section .text\n    mov x0, #1\n    adr x1, .Lstr"@ + decimal(id as nat) + "\n    mov x2, #"@
        + decimal(len) + "\n    mov x8, #64\n    svc #0\n"@
}

/// `r` is what generation hands out from state `mid` after the last statement:
/// the script pieces so far, then the remaining text followed by the exit sequence.
pub open spec fn finished(mid: Generator, r: Seq<Piece>) -> bool {
    let n = mid.pieces@.len();
    &&& r.len() == n + 1
    &&& r.subrange(0, n as int) == mid.pieces@
    &&& r[n as int] matches Piece::Asm(t) && t@ == mid.output@ + epilogue()
}

/// Names the tokens, statements and states of a whole compile.
pub open spec fn run(toks: Seq<Token>, ast: Seq<Stmt>, g0: Generator, mid: Generator) -> bool {
    true
}

/// Names two intermediate states of an emission (a trigger for the relations below).
pub open spec fn states(m1: Generator, m2: Generator) -> bool {
    true
}

/// Names one intermediate state of an emission.
pub open spec fn state(m: Generator) -> bool {
    true
}

/// Names the tokens, statements and states of an included module's expansion.
pub open spec fn expansion(toks: Seq<Token>, sub: Seq<Stmt>, m1: Generator, m2: Generator) -> bool {
    true
}

/// Register of the object that holds the chance roll's state.
pub open spec fn math_reg(symbols: Seq<(String, u64)>) -> u64 {
    match lookup_reg(symbols, "math"@) {
        Some(r) => r,
        None => ROLL_REG,
    }
}

/// Whether `name` is on the inclusion stack.
pub open spec fn on_stack(stack: Seq<String>, name: Seq<char>) -> bool {
    exists|k: int| 0 <= k < stack.len() && stack[k]@ == name
}

/// Fuel that bounds the nesting of included modules for `n` modules.
pub open spec fn fuel_for(n: nat) -> u64 {
    if n < u64::MAX {
        (n + 1) as u64
    } else {
        u64::MAX
    }
}

pub open spec fn class_post(a: Generator, b: Generator, name: String, fields: Vec<String>) -> bool {
    &&& a.output == b.output
    &&& a.pieces == b.pieces
    &&& a.symbols == b.symbols
    &&& a.obj_types == b.obj_types
    &&& a.modules == b.modules
    &&& a.expanding == b.expanding
    &&& a.reg_count == b.reg_count
    &&& a.label_count == b.label_count
    &&& a.print_count == b.print_count
    &&& a.labels == b.labels
    &&& a.allocs == b.allocs
    &&& a.bump == b.bump
    &&& find_key(b.class_map@, name@) matches Some(k) && b.class_map@[k as int].1@ == fields@
}

pub open spec fn script_post(a: Generator, b: Generator, script: String) -> bool {
    let n = a.pieces@.len();
    &&& b.pieces@.len() == n + 2
    &&& b.pieces@.subrange(0, n as int) == a.pieces@
    &&& b.pieces@[n as int] matches Piece::Asm(t) && t@ == a.output@
    &&& b.pieces@[n + 1 as int] matches Piece::Script(x) && x@ == script@
    &&& b.output@.len() == 0
    &&& a.symbols == b.symbols
    &&& a.class_map == b.class_map
    &&& a.obj_types == b.obj_types
    &&& a.modules == b.modules
    &&& a.expanding == b.expanding
    &&& a.reg_count == b.reg_count
    &&& a.label_count == b.label_count
    &&& a.print_count == b.print_count
    &&& a.labels == b.labels
    &&& a.allocs == b.allocs
    &&& a.bump == b.bump
}

/// `m` is `a` with `name` pushed on the inclusion stack.
pub open spec fn pushed(a: Generator, m: Generator, name: String) -> bool {
    &&& a.output == m.output
    &&& a.pieces == m.pieces
    &&& a.symbols == m.symbols
    &&& a.class_map == m.class_map
    &&& a.obj_types == m.obj_types
    &&& a.modules == m.modules
    &&& m.expanding@ == a.expanding@.push(name)
    &&& a.reg_count == m.reg_count
    &&& a.label_count == m.label_count
    &&& a.print_count == m.print_count
    &&& a.labels == m.labels
    &&& a.allocs == m.allocs
    &&& a.bump == m.bump
}

/// `b` is `m` with the inclusion stack back to that of `a`.
pub open spec fn popped(m: Generator, b: Generator, a: Generator) -> bool {
    &&& m.output == b.output
    &&& m.pieces == b.pieces
    &&& m.symbols == b.symbols
    &&& m.class_map == b.class_map
    &&& m.obj_types == b.obj_types
    &&& m.modules == b.modules
    &&& b.expanding@ == a.expanding@
    &&& m.reg_count == b.reg_count
    &&& m.label_count == b.label_count
    &&& m.print_count == b.print_count
    &&& m.labels == b.labels
    &&& m.allocs == b.allocs
    &&& m.bump == b.bump
}

/// Emitting statement `s` takes the generator from `a` to `b`: the text appended
/// to the output, the tables and the counters, per kind of statement. A block's
/// head (its label, the load, compare and branch, or the chance roll) comes
/// first, then its body, then its end label. An included module is lexed,
/// parsed and emitted in place, unless it is already being expanded.
pub open spec fn emits(a: Generator, s: Stmt, fuel: u64, b: Generator) -> bool
    decreases fuel, s, 0nat,
{
    match s {
        Stmt::LocalAssign { name, value } => local_post(a, b, name, value),
        Stmt::FieldAssign { path, value } => field_assign_post(a, b, path@, value),
        Stmt::FieldMath { path, op, rhs_val } => field_math_post(a, b, path@, op, rhs_val),
        Stmt::PrintVar(name) => print_var_post(a, b, name),
        Stmt::PrintString(text) => print_string_post(a, b, text),
        Stmt::HeapAlloc { var_name, class_name } => heap_post(a, b, var_name, class_name),
        Stmt::ClassDef { name, fields } => class_post(a, b, name, fields),
        Stmt::AsmBlock(code) => frame(a, b) && b.output@ == a.output@ + "    "@ + code@ + "\n"@,
        Stmt::IntelBlock(code) => frame(a, b) && b.output@ == a.output@ + "\n    .intel_syntax noprefix\n    "@
            + code@ + "\n    .att_syntax\n"@,
        Stmt::PythonBlock(script) => script_post(a, b, script),
        Stmt::IfStmt { path, op, rhs_val, body } => if a.label_count == u64::MAX {
            b == a
        } else {
            let id = a.label_count;
            let head = load_text(
                path_reg(a.symbols@, path@),
                path_offset(a.obj_types@, a.class_map@, path@),
                path@.len() > 1,
            ) + test_text(rhs_val, op, ".Lif"@, id);
            exists|m1: Generator, m2: Generator|
                #[trigger] states(m1, m2) && took_label(a, m1) && m1.output@ == a.output@ + head && body_emits(
                    m1,
                    body@,
                    0,
                    fuel,
                    m2,
                ) && frame(m2, b) && b.output@ == m2.output@ + ".Lif"@ + decimal(id as nat) + ":\n"@
        },
        Stmt::WhileStmt { path, op, rhs_val, body } => if a.label_count == u64::MAX {
            b == a
        } else {
            let id = a.label_count;
            let head = ".Lw_start"@ + decimal(id as nat) + ":\n"@ + load_text(
                path_reg(a.symbols@, path@),
                path_offset(a.obj_types@, a.class_map@, path@),
                path@.len() > 1,
            ) + test_text(rhs_val, op, ".Lw_end"@, id);
            exists|m1: Generator, m2: Generator|
                #[trigger] states(m1, m2) && took_label(a, m1) && m1.output@ == a.output@ + head && body_emits(
                    m1,
                    body@,
                    0,
                    fuel,
                    m2,
                ) && frame(m2, b) && b.output@ == m2.output@ + "    b .Lw_start"@ + decimal(id as nat)
                    + "\n.Lw_end"@ + decimal(id as nat) + ":\n"@
        },
        Stmt::ProbIf { chance, body } => if a.label_count == u64::MAX {
            b == a
        } else {
            let id = a.label_count;
            exists|m1: Generator, m2: Generator|
                #[trigger] states(m1, m2) && took_label(a, m1) && m1.output@ == a.output@ + roll_text(
                    math_reg(a.symbols@),
                    chance,
                    id,
                ) && body_emits(m1, body@, 0, fuel, m2) && frame(m2, b) && b.output@ == m2.output@ + ".Lif"@
                    + decimal(id as nat) + ":\n"@
        },
        Stmt::MergeBlock { name, source } => if fuel == 0 || on_stack(a.expanding@, name@) {
            frame(a, b) && b.output@ == a.output@ + "    // Error: cyclic inclusion of "@ + name@ + ".hmr\n"@
        } else {
            exists|toks: Seq<Token>, sub: Seq<Stmt>, m1: Generator, m2: Generator|
                #[trigger] expansion(toks, sub, m1, m2) && views(toks) == lex_all(source@, 0) && program_parsed(
                    toks,
                    0,
                    a.modules@,
                    sub,
                    0,
                ) && pushed(a, m1, name) && body_emits(m1, sub, 0, (fuel - 1) as u64, m2) && popped(m2, b, a)
        },
    }
}

/// Emitting the statements `b[i..]` in order takes the generator from `a` to `z`.
pub open spec fn body_emits(a: Generator, b: Seq<Stmt>, i: nat, fuel: u64, z: Generator) -> bool
    decreases fuel, b, b.len() - i,
{
    if i >= b.len() {
        z == a
    } else {
        exists|m: Generator| #[trigger] state(m) && emits(a, b[i as int], fuel, m) && body_emits(m, b, i + 1, fuel, z)
    }
}

/// A generator as made for `mods`: the prologue, empty tables, counters at their start.
pub open spec fn fresh(g: Generator, mods: Seq<Module>) -> bool {
    &&& g.output@ == prologue()
    &&& g.pieces@.len() == 0
    &&& g.symbols@.len() == 0
    &&& g.class_map@.len() == 0
    &&& g.obj_types@.len() == 0
    &&& g.expanding@.len() == 0
    &&& g.modules@ == mods
    &&& g.reg_count == FIRST_REG
    &&& g.label_count == 0
    &&& g.print_count == 0
    &&& g.labels@.len() == 0
    &&& g.allocs@.len() == 0
    &&& g.bump@ == 0
}

/// States `gs[k]` to `gs[k + 1]` emit statement `b[k]`.
pub open spec fn emit_chain(gs: Seq<Generator>, b: Seq<Stmt>, fuel: u64) -> bool {
    &&& gs.len() == b.len() + 1
    &&& forall|k: int| 0 <= k < b.len() ==> #[trigger] emits(gs[k], b[k], fuel, gs[k + 1])
}

proof fn lemma_emit_chain(gs: Seq<Generator>, b: Seq<Stmt>, fuel: u64, i: nat)
    requires
        emit_chain(gs, b, fuel),
        i <= b.len(),
    ensures
        body_emits(gs[i as int], b, i, fuel, gs.last()),
    decreases b.len() - i,
{
    if i < b.len() {
        lemma_emit_chain(gs, b, fuel, i + 1);
        assert(emits(gs[i as int], b[i as int], fuel, gs[i + 1 as int]));
        assert(state(gs[i + 1 as int]));
    }
}

proof fn lemma_emit_chain_push(gs: Seq<Generator>, b: Seq<Stmt>, fuel: u64, s: Stmt, g: Generator)
    requires
        emit_chain(gs, b, fuel),
        emits(gs.last(), s, fuel, g),
    ensures
        emit_chain(gs.push(g), b.push(s), fuel),
{
    let gs2 = gs.push(g);
    let b2 = b.push(s);
    assert forall|k: int| 0 <= k < b2.len() implies #[trigger] emits(gs2[k], b2[k], fuel, gs2[k + 1]) by {
        if k < b.len() {
            assert(gs2[k] == gs[k] && gs2[k + 1] == gs[k + 1] && b2[k] == b[k]);
            assert(emits(gs[k], b[k], fuel, gs[k + 1]));
        }
    }
}

/// The register of the variable that `path` names.
pub open spec fn path_reg(symbols: Seq<(String, u64)>, path: Seq<String>) -> u64 {
    if path.len() == 0 {
        FALLBACK_REG
    } else {
        match lookup_reg(symbols, path[0]@) {
            Some(r) => r,
            None => FALLBACK_REG,
        }
    }
}

/// The byte offset of the field that `path` names, or 0.
pub open spec fn path_offset(
    obj_types: Seq<(String, String)>,
    class_map: Seq<(String, Vec<String>)>,
    path: Seq<String>,
) -> u64 {
    if path.len() <= 1 {
        0
    } else {
        match find_key(obj_types, path[0]@) {
            Some(i) => match find_key(class_map, obj_types[i as int].1@) {
                Some(k) => {
                    let fields = class_map[k as int].1@;
                    if fields.len() <= u64::MAX / 8 {
                        offset_of(fields, path[1]@) as u64
                    } else {
                        0
                    }
                },
                None => 0,
            },
            None => 0,
        }
    }
}

/// The symbol, class and object tables, and the included modules, are the same.
pub open spec fn same_tables(a: Generator, b: Generator) -> bool {
    &&& a.pieces == b.pieces
    &&& a.symbols == b.symbols
    &&& a.class_map == b.class_map
    &&& a.obj_types == b.obj_types
    &&& a.modules == b.modules
    &&& a.expanding == b.expanding
}

proof fn lemma_find_key_set<T>(v: Seq<(String, T)>, i: nat, e: (String, T), k: Seq<char>)
    requires
        find_key(v, k) == Some(i),
        e.0@ == k,
        i < v.len(),
    ensures
        find_key(v.update(i as int, e), k) == Some(i),
        v.update(i as int, e)[i as int] == e,
    decreases v.len(),
{
    if i > 0 {
        assert(v.update(i as int, e).drop_first() =~= v.drop_first().update(i - 1, e));
        lemma_find_key_set(v.drop_first(), (i - 1) as nat, e, k);
    }
}

proof fn lemma_find_key_push<T>(v: Seq<(String, T)>, e: (String, T), k: Seq<char>)
    requires
        find_key(v, k) is None,
        e.0@ == k,
    ensures
        find_key(v.push(e), k) == Some(v.len()),
    decreases v.len(),
{
    if v.len() > 0 {
        assert(v.push(e).drop_first() =~= v.drop_first().push(e));
        lemma_find_key_push(v.drop_first(), e, k);
    }
}

/// A copy of a list of names.
fn copy_names(v: &Vec<String>) -> (r: Vec<String>)
    ensures
        r@ == v@,
{
    let mut r: Vec<String> = Vec::new();
    let mut i: usize = 0;
    while i < v.len()
        invariant
            i <= v@.len(),
            r@ == v@.subrange(0, i as int),
        decreases v@.len() - i,
    {
        r.push(v[i].clone());
        i = i + 1;
        assert(r@ =~= v@.subrange(0, i as int));
    }
    assert(v@.subrange(0, v@.len() as int) =~= v@);
    r
}

/// In a class whose first `n` fields are named differently from field `n`, that
/// field lies at byte offset `8 * n`; a name that no field has resolves to offset 0.
pub proof fn lemma_field_offsets(fields: Seq<String>, n: int, unknown: Seq<char>)
    requires
        0 <= n < fields.len(),
        forall|k: int| 0 <= k < n ==> fields[k]@ != fields[n]@,
        forall|k: int| 0 <= k < fields.len() ==> fields[k]@ != unknown,
    ensures
        offset_of(fields, fields[n]@) == 8 * n,
        offset_of(fields, unknown) == 0,
{
    lemma_find_name_at(fields, n);
    lemma_find_name_absent(fields, unknown);
}

proof fn lemma_find_name_at(fields: Seq<String>, n: int)
    requires
        0 <= n < fields.len(),
        forall|k: int| 0 <= k < n ==> fields[k]@ != fields[n]@,
    ensures
        find_name(fields, fields[n]@) == Some(n as nat),
    decreases n,
{
    if n > 0 {
        let rest = fields.drop_first();
        assert(rest[n - 1] == fields[n]);
        assert forall|k: int| 0 <= k < n - 1 implies #[trigger] rest[k]@ != rest[n - 1]@ by {
            assert(rest[k] == fields[k + 1]);
        }
        lemma_find_name_at(rest, n - 1);
    }
}

proof fn lemma_find_name_absent(fields: Seq<String>, f: Seq<char>)
    requires
        forall|k: int| 0 <= k < fields.len() ==> fields[k]@ != f,
    ensures
        find_name(fields, f) is None,
    decreases fields.len(),
{
    if fields.len() > 0 {
        let rest = fields.drop_first();
        assert forall|k: int| 0 <= k < rest.len() implies #[trigger] rest[k]@ != f by {
            assert(rest[k] == fields[k + 1]);
        }
        lemma_find_name_absent(rest, f);
    }
}

/// The label ids that the control constructs of one compile use are pairwise
/// distinct and strictly increase in emission order.
pub proof fn lemma_labels_increase(g: Generator, i: int, j: int)
    requires
        g.wf(),
        0 <= i < j < g.label_ids().len(),
    ensures
        g.label_ids()[i] < g.label_ids()[j],
        g.label_ids()[i] != g.label_ids()[j],
{
}

/// Heap allocations follow each other in the arena: each one starts where the
/// previous one ends, so their base addresses increase by the sizes (8 bytes per
/// field of the class) and no two of them overlap.
pub proof fn lemma_allocs_disjoint(g: Generator, i: int, j: int)
    requires
        g.wf(),
        0 <= i < j < g.heap().len(),
    ensures
        g.heap()[i].base + g.heap()[i].size <= g.heap()[j].base,
        j == i + 1 ==> g.heap()[j].base == g.heap()[i].base + g.heap()[i].size,
        g.heap()[i].size > 0 ==> g.heap()[i].base < g.heap()[j].base,
    decreases j - i,
{
    if j > i + 1 {
        lemma_allocs_disjoint(g, i, j - 1);
        assert(g.heap()[j].base == g.heap()[j - 1].base + g.heap()[j - 1].size);
    }
}

/// The characters that the decimal print routine writes for `v`: it stores a
/// newline, then, dividing by ten until the quotient is zero, each remainder's
/// digit in front of what it wrote before.
pub open spec fn printed_digits(v: nat, written: Seq<char>) -> Seq<char>
    decreases v,
{
    let next = seq![digit_char(v % 10)] + written;
    if v / 10 == 0 {
        next
    } else {
        printed_digits(v / 10, next)
    }
}

/// The print routine writes the decimal digits of `v` and one newline, with no
/// leading zero unless `v` is 0, which prints as the single digit 0.
pub proof fn lemma_print_decimal(v: nat)
    ensures
        printed_digits(v, seq!['\n']) == decimal(v) + seq!['\n'],
        v > 0 ==> decimal(v)[0] != '0',
        v == 0 ==> decimal(v) == seq!['0'],
        forall|k: int| 0 <= k < decimal(v).len() ==> '0' <= #[trigger] decimal(v)[k] <= '9',
{
    lemma_printed_digits(v, seq!['\n']);
    lemma_decimal_digits(v);
}

proof fn lemma_printed_digits(v: nat, w: Seq<char>)
    ensures
        printed_digits(v, w) == decimal(v) + w,
    decreases v,
{
    let next = seq![digit_char(v % 10)] + w;
    if v / 10 == 0 {
        assert(v < 10);
        assert(decimal(v) + w =~= next);
    } else {
        lemma_printed_digits(v / 10, next);
        assert(decimal(v / 10) + next =~= decimal(v / 10).push(digit_char(v % 10)) + w);
    }
}

proof fn lemma_decimal_digits(v: nat)
    ensures
        v > 0 ==> decimal(v)[0] != '0',
        decimal(v).len() >= 1,
        forall|k: int| 0 <= k < decimal(v).len() ==> '0' <= #[trigger] decimal(v)[k] <= '9',
    decreases v,
{
    if v >= 10 {
        lemma_decimal_digits(v / 10);
        assert(decimal(v)[0] == decimal(v / 10)[0]);
    }
}

} // verus!
