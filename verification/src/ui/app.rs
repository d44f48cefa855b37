//! Tabs, base selectors, focus, the trace navigator and the key handling of
//! the interface, independent of how the screen is drawn.

use vstd::prelude::*;
use crate::numeral::{
    is_base_digit, is_decimal_char, lemma_power_positive, lemma_value_concat, power,
    valid_digits, value_of,
};
use crate::text::{
    chars_of, contains, contains_chars, pop_char, push_char, starts_with, starts_with_chars,
};

verus! {

/// The tabs of the interface.
#[derive(PartialEq, Eq, Clone, Copy, Debug, Structural)]
pub enum Tabs {
    Conversor,
    Trace,
    Quiz,
    Batch,
    Max,
}

impl Tabs {
    /// The number shown for the tab and typed to select it: 1 to 5.
    pub fn number(&self) -> (n: i32)
        ensures
            n == tab_number(*self),
    {
        match self {
            Tabs::Conversor => 1,
            Tabs::Trace => 2,
            Tabs::Quiz => 3,
            Tabs::Batch => 4,
            Tabs::Max => 5,
        }
    }
}

/// The number of a tab.
pub open spec fn tab_number(t: Tabs) -> int {
    match t {
        Tabs::Conversor => 1,
        Tabs::Trace => 2,
        Tabs::Quiz => 3,
        Tabs::Batch => 4,
        Tabs::Max => 5,
    }
}

/// A base as chosen in a selector.
#[derive(PartialEq, Eq, Clone, Copy, Debug, Structural)]
pub enum Base {
    Auto,
    Bin,
    Oct,
    Dec,
    Hex,
    Custom(u8),
}

/// The label shown for a base.
pub open spec fn base_label(b: Base) -> Seq<char> {
    match b {
        Base::Auto => "AUTO"@,
        Base::Bin => "BIN"@,
        Base::Oct => "OCT"@,
        Base::Dec => "DEC"@,
        Base::Hex => "HEX"@,
        Base::Custom(_) => "CUSTOM"@,
    }
}

/// The base after `b` in the selector; after a custom base comes `Auto`.
pub open spec fn base_next(b: Base) -> Base {
    match b {
        Base::Auto => Base::Bin,
        Base::Bin => Base::Oct,
        Base::Oct => Base::Dec,
        Base::Dec => Base::Hex,
        Base::Hex => Base::Custom(10),
        Base::Custom(_) => Base::Auto,
    }
}

/// The base before `b` in the selector; before `Auto` comes a custom base.
pub open spec fn base_prev(b: Base) -> Base {
    match b {
        Base::Auto => Base::Custom(10),
        Base::Bin => Base::Auto,
        Base::Oct => Base::Bin,
        Base::Dec => Base::Oct,
        Base::Hex => Base::Dec,
        Base::Custom(_) => Base::Hex,
    }
}

/// The base that a selector hints to the parser: none for `Auto`.
pub open spec fn base_hint(b: Base) -> Option<u8> {
    match b {
        Base::Auto => None,
        Base::Bin => Some(2u8),
        Base::Oct => Some(8u8),
        Base::Dec => Some(10u8),
        Base::Hex => Some(16u8),
        Base::Custom(n) => Some(n),
    }
}

/// The base number of a selector; `Auto` counts as 10.
pub open spec fn base_number(b: Base) -> u8 {
    match b {
        Base::Auto | Base::Dec => 10u8,
        Base::Bin => 2u8,
        Base::Oct => 8u8,
        Base::Hex => 16u8,
        Base::Custom(n) => n,
    }
}

impl Base {
    pub fn label(&self) -> (r: &str)
        ensures
            r@ == base_label(*self),
    {
        match self {
            Base::Auto => "AUTO",
            Base::Bin => "BIN",
            Base::Oct => "OCT",
            Base::Dec => "DEC",
            Base::Hex => "HEX",
            Base::Custom(_) => "CUSTOM",
        }
    }

    pub fn next(&self) -> (r: Base)
        ensures
            r == base_next(*self),
    {
        match self {
            Base::Auto => Base::Bin,
            Base::Bin => Base::Oct,
            Base::Oct => Base::Dec,
            Base::Dec => Base::Hex,
            Base::Hex => Base::Custom(10),
            Base::Custom(_) => Base::Auto,
        }
    }

    pub fn prev(&self) -> (r: Base)
        ensures
            r == base_prev(*self),
    {
        match self {
            Base::Auto => Base::Custom(10),
            Base::Bin => Base::Auto,
            Base::Oct => Base::Bin,
            Base::Dec => Base::Oct,
            Base::Hex => Base::Dec,
            Base::Custom(_) => Base::Hex,
        }
    }

    pub fn to_hint(&self) -> (r: Option<u8>)
        ensures
            r == base_hint(*self),
    {
        match self {
            Base::Auto => None,
            Base::Bin => Some(2),
            Base::Oct => Some(8),
            Base::Dec => Some(10),
            Base::Hex => Some(16),
            Base::Custom(n) => Some(*n),
        }
    }

    pub fn to_u8(&self) -> (r: u8)
        ensures
            r == base_number(*self),
    {
        match self {
            Base::Auto | Base::Dec => 10,
            Base::Bin => 2,
            Base::Oct => 8,
            Base::Hex => 16,
            Base::Custom(n) => *n,
        }
    }

    pub fn is_custom(&self) -> (r: bool)
        ensures
            r == (*self is Custom),
    {
        match self {
            Base::Custom(_) => true,
            _ => false,
        }
    }

    /// The bases of the selector that are not custom, in selector order.
    pub fn all_static() -> (r: &'static [Base])
        ensures
            r@ == seq![Base::Auto, Base::Bin, Base::Oct, Base::Dec, Base::Hex],
    {
        &[Base::Auto, Base::Bin, Base::Oct, Base::Dec, Base::Hex]
    }
}


/// Which field of the converter tab has the focus.
#[derive(PartialEq, Eq, Clone, Copy, Debug, Structural)]
pub enum ConversorFocus {
    Input,
    SourceBase,
    SourceCustom,
    TargetBase,
    TargetCustom,
}

/// The field after `f`: the custom fields are visited only when their
/// selector is on a custom base.
pub open spec fn focus_next(f: ConversorFocus, source_is_custom: bool, target_is_custom: bool) -> ConversorFocus {
    match f {
        ConversorFocus::Input => ConversorFocus::SourceBase,
        ConversorFocus::SourceBase => if source_is_custom {
            ConversorFocus::SourceCustom
        } else {
            ConversorFocus::TargetBase
        },
        ConversorFocus::SourceCustom => ConversorFocus::TargetBase,
        ConversorFocus::TargetBase => if target_is_custom {
            ConversorFocus::TargetCustom
        } else {
            ConversorFocus::Input
        },
        ConversorFocus::TargetCustom => ConversorFocus::Input,
    }
}

/// The fields that take typed text.
pub open spec fn focus_is_typing(f: ConversorFocus) -> bool {
    f is Input || f is SourceCustom || f is TargetCustom
}

impl ConversorFocus {
    pub fn next(&self, source_is_custom: bool, target_is_custom: bool) -> (r: ConversorFocus)
        ensures
            r == focus_next(*self, source_is_custom, target_is_custom),
    {
        match self {
            ConversorFocus::Input => ConversorFocus::SourceBase,
            ConversorFocus::SourceBase => {
                if source_is_custom {
                    ConversorFocus::SourceCustom
                } else {
                    ConversorFocus::TargetBase
                }
            },
            ConversorFocus::SourceCustom => ConversorFocus::TargetBase,
            ConversorFocus::TargetBase => {
                if target_is_custom {
                    ConversorFocus::TargetCustom
                } else {
                    ConversorFocus::Input
                }
            },
            ConversorFocus::TargetCustom => ConversorFocus::Input,
        }
    }

    pub fn is_typing(&self) -> (r: bool)
        ensures
            r == focus_is_typing(*self),
    {
        match self {
            ConversorFocus::Input | ConversorFocus::SourceCustom | ConversorFocus::TargetCustom => true,
            _ => false,
        }
    }
}

/// The state of the trace tab: the last conversion and its steps.
pub struct TraceState {
    /// The value as the user typed it.
    pub valor_original: String,
    /// The source base.
    pub base_origem: u8,
    /// The target base.
    pub base_destino: u8,
    /// The result of the conversion.
    pub resultado: String,
    /// The lines of the trace.
    pub passos: Vec<String>,
    /// The step that is highlighted.
    pub passo_atual: usize,
}

/// Model of a [`TraceState`].
#[verifier::ext_equal]
pub struct TraceStateView {
    pub valor_original: Seq<char>,
    pub base_origem: u8,
    pub base_destino: u8,
    pub resultado: Seq<char>,
    pub passos: Seq<Seq<char>>,
    pub passo_atual: usize,
}

impl View for TraceState {
    type V = TraceStateView;

    open spec fn view(&self) -> TraceStateView {
        TraceStateView {
            valor_original: self.valor_original@,
            base_origem: self.base_origem,
            base_destino: self.base_destino,
            resultado: self.resultado@,
            passos: self.passos.deep_view(),
            passo_atual: self.passo_atual,
        }
    }
}

impl Default for TraceState {
    fn default() -> (r: Self)
        ensures
            r@.valor_original.len() == 0,
            r@.base_origem == 10,
            r@.base_destino == 2,
            r@.resultado.len() == 0,
            r@.passos.len() == 0,
            r@.passo_atual == 0,
    {
        Self {
            valor_original: String::new(),
            base_origem: 10,
            base_destino: 2,
            resultado: String::new(),
            passos: Vec::new(),
            passo_atual: 0,
        }
    }
}

/// The step after the highlighted one, if there is one.
pub open spec fn trace_forward(t: TraceStateView) -> TraceStateView {
    if t.passos.len() > 0 && t.passo_atual + 1 < t.passos.len() {
        TraceStateView { passo_atual: (t.passo_atual + 1) as usize, ..t }
    } else {
        t
    }
}

/// The step before the highlighted one, if there is one.
pub open spec fn trace_back(t: TraceStateView) -> TraceStateView {
    if t.passo_atual > 0 {
        TraceStateView { passo_atual: (t.passo_atual - 1) as usize, ..t }
    } else {
        t
    }
}

impl TraceState {
    /// Whether there are steps to show.
    pub fn tem_dados(&self) -> (r: bool)
        ensures
            r == (self@.passos.len() > 0),
    {
        !self.passos.is_empty()
    }

    /// Highlights the next step, if there is one.
    pub fn avancar(&mut self)
        requires
            old(self)@.passos.len() > 0 ==> old(self)@.passo_atual < usize::MAX,
        ensures
            final(self)@ == trace_forward(old(self)@),
    {
        if !self.passos.is_empty() && self.passo_atual + 1 < self.passos.len() {
            self.passo_atual += 1;
        }
    }

    /// Highlights the previous step, if there is one.
    pub fn recuar(&mut self)
        ensures
            final(self)@ == trace_back(old(self)@),
    {
        if self.passo_atual > 0 {
            self.passo_atual -= 1;
        }
    }
}

/// The state of the batch tab: which file is selected.
pub struct BatchState {
    pub selected_file: usize,
}

/// The state of the converter tab.
pub struct ConversorState {
    pub input: String,
    pub source_base: Base,
    pub source_custom_input: String,
    pub target_base: Base,
    pub target_custom_input: String,
    pub output: String,
    pub error: Option<String>,
    pub focus: ConversorFocus,
}

/// Model of a [`ConversorState`].
pub struct ConversorStateView {
    pub input: Seq<char>,
    pub source_base: Base,
    pub source_custom_input: Seq<char>,
    pub target_base: Base,
    pub target_custom_input: Seq<char>,
    pub output: Seq<char>,
    pub error: Option<Seq<char>>,
    pub focus: ConversorFocus,
}

impl View for ConversorState {
    type V = ConversorStateView;

    open spec fn view(&self) -> ConversorStateView {
        ConversorStateView {
            input: self.input@,
            source_base: self.source_base,
            source_custom_input: self.source_custom_input@,
            target_base: self.target_base,
            target_custom_input: self.target_custom_input@,
            output: self.output@,
            error: match self.error {
                Some(e) => Some(e@),
                None => None,
            },
            focus: self.focus,
        }
    }
}

impl ConversorState {
    pub fn new() -> (r: Self)
        ensures
            r@.input.len() == 0,
            r@.source_base == Base::Auto,
            r@.source_custom_input.len() == 0,
            r@.target_base == Base::Bin,
            r@.target_custom_input.len() == 0,
            r@.output.len() == 0,
            r@.error is None,
            r@.focus == ConversorFocus::Input,
            custom_fields_ok(r@),
    {
        Self {
            input: String::new(),
            source_base: Base::Auto,
            source_custom_input: String::new(),
            target_base: Base::Bin,
            target_custom_input: String::new(),
            output: String::new(),
            error: None,
            focus: ConversorFocus::Input,
        }
    }
}


/// A key pressed by the user, as the interface tells them apart.
#[derive(PartialEq, Eq, Clone, Copy, Debug, Structural)]
pub enum Key {
    Char(char),
    Tab,
    Esc,
    Backspace,
    Enter,
    Left,
    Right,
    Up,
    Down,
    Other,
}

/// What `str::parse::<u8>` gives: an optional '+' followed by one or more
/// decimal digits whose value is at most 255.
pub open spec fn parse_u8_spec(s: Seq<char>) -> Option<u8> {
    let digits = if s.len() > 0 && s[0] == '+' {
        s.drop_first()
    } else {
        s
    };
    if digits.len() > 0 && valid_digits(digits, 10) && value_of(digits, 10) <= 255 {
        Some(value_of(digits, 10) as u8)
    } else {
        None
    }
}

/// A custom base as typed: a `u8` between 2 and 36.
pub open spec fn custom_base_spec(s: Seq<char>) -> Option<u8> {
    match parse_u8_spec(s) {
        Some(n) => if 2 <= n <= 36 {
            Some(n)
        } else {
            None
        },
        None => None,
    }
}

/// The selector after committing a typed custom base: the custom base when
/// the text is one, the selector unchanged otherwise.
pub open spec fn commit_spec(base: Base, buf: Seq<char>) -> Base {
    match custom_base_spec(buf) {
        Some(n) => Base::Custom(n),
        None => base,
    }
}

/// The text takes fewer than two bytes in UTF-8: it is empty, or it is one
/// ASCII character.
pub open spec fn fewer_than_two_bytes(s: Seq<char>) -> bool {
    s.len() == 0 || (s.len() == 1 && (s[0] as u32) < 128)
}

proof fn lemma_value_prefix_bound(s: Seq<char>, k: int, base: nat)
    requires
        0 <= k <= s.len(),
        base >= 1,
    ensures
        value_of(s.take(k), base) <= value_of(s, base),
{
    assert(s =~= s.take(k) + s.skip(k));
    lemma_value_concat(s.take(k), s.skip(k), base);
    lemma_power_positive(base as int, (s.len() - k) as nat);
    let v = value_of(s.take(k), base) as int;
    let p = power(base as int, (s.len() - k) as nat);
    assert(v <= v * p) by (nonlinear_arith)
        requires
            v >= 0,
            p >= 1,
    ;
}

/// A custom base typed as text: a `u8` (with an optional '+') between 2
/// and 36.
pub fn parse_custom_base(buf: &str) -> (r: Option<u8>)
    ensures
        r == custom_base_spec(buf@),
{
    let cs = chars_of(buf);
    let n = cs.len();
    let start: usize = if n > 0 && cs[0] == '+' {
        1
    } else {
        0
    };
    let ghost digits = cs@.subrange(start as int, n as int);
    assert(digits =~= (if cs@.len() > 0 && cs@[0] == '+' {
        cs@.drop_first()
    } else {
        cs@
    }));
    if start == n {
        return None;
    }
    let mut v: u32 = 0;
    let mut i: usize = start;
    while i < n
        invariant
            start <= i <= n,
            n == cs@.len(),
            cs@ == buf@,
            digits == cs@.subrange(start as int, n as int),
            digits == (if buf@.len() > 0 && buf@[0] == '+' {
                buf@.drop_first()
            } else {
                buf@
            }),
            valid_digits(cs@.subrange(start as int, i as int), 10),
            v == value_of(cs@.subrange(start as int, i as int), 10),
            v <= 255,
        decreases n - i,
    {
        let c = cs[i];
        if !('0' <= c && c <= '9') {
            assert(!is_base_digit(digits[i - start], 10));
            assert(!valid_digits(digits, 10));
            assert(parse_u8_spec(buf@) is None);
            return None;
        }
        let d = (c as u32) - ('0' as u32);
        proof {
            let t = cs@.subrange(start as int, (i + 1) as int);
            assert(t.drop_last() =~= cs@.subrange(start as int, i as int));
            assert(t.last() == c);
            assert forall|q: int| 0 <= q < t.len() implies is_base_digit(#[trigger] t[q], 10) by {
                if q < t.len() - 1 {
                    assert(t[q] == cs@.subrange(start as int, i as int)[q]);
                }
            }
        }
        v = v * 10 + d;
        i = i + 1;
        assert(v == value_of(cs@.subrange(start as int, i as int), 10));
        if v > 255 {
            proof {
                assert(digits.take((i - start) as int) =~= cs@.subrange(start as int, i as int));
                lemma_value_prefix_bound(digits, (i - start) as int, 10);
                assert(parse_u8_spec(buf@) is None);
            }
            return None;
        }
    }
    assert(cs@.subrange(start as int, n as int) =~= digits);
    let b = v as u8;
    if 2 <= b && b <= 36 {
        Some(b)
    } else {
        None
    }
}

/// Sets the selector to the typed custom base when the text is one.
pub fn commit_custom_base(base: &mut Base, buf: &str)
    ensures
        *final(base) == commit_spec(*old(base), buf@),
{
    if let Some(n) = parse_custom_base(buf) {
        *base = Base::Custom(n);
    }
}

/// Whether `s` takes fewer than two bytes in UTF-8.
fn has_fewer_than_two_bytes(s: &String) -> (r: bool)
    ensures
        r == fewer_than_two_bytes(s@),
{
    let n = s.as_str().unicode_len();
    if n == 0 {
        true
    } else if n == 1 {
        let c = s.as_str().get_char(0);
        (c as u32) < 128
    } else {
        false
    }
}

/// A typed character in a custom base field: a decimal digit is appended
/// while the field holds fewer than two bytes, and then committed.
pub open spec fn custom_char_step(base: Base, buf: Seq<char>, c: char) -> (Base, Seq<char>) {
    if is_decimal_char(c) && fewer_than_two_bytes(buf) {
        (commit_spec(base, buf.push(c)), buf.push(c))
    } else {
        (base, buf)
    }
}

/// `s` without its last character, if it has one.
pub open spec fn pop_spec(s: Seq<char>) -> Seq<char> {
    if s.len() == 0 {
        s
    } else {
        s.drop_last()
    }
}

/// How a key changes the converter tab.
pub open spec fn conversor_step(s: ConversorStateView, key: Key) -> ConversorStateView {
    let source_custom = s.source_base is Custom;
    let target_custom = s.target_base is Custom;
    match key {
        Key::Tab => {
            let sb = if s.focus == ConversorFocus::SourceCustom {
                commit_spec(s.source_base, s.source_custom_input)
            } else {
                s.source_base
            };
            let tb = if s.focus == ConversorFocus::TargetCustom {
                commit_spec(s.target_base, s.target_custom_input)
            } else {
                s.target_base
            };
            ConversorStateView {
                source_base: sb,
                target_base: tb,
                focus: focus_next(s.focus, sb is Custom, tb is Custom),
                ..s
            }
        },
        Key::Esc => match s.focus {
            ConversorFocus::SourceCustom => ConversorStateView {
                focus: ConversorFocus::SourceBase,
                ..s
            },
            ConversorFocus::TargetCustom => ConversorStateView {
                focus: ConversorFocus::TargetBase,
                ..s
            },
            _ => s,
        },
        Key::Char(c) => match s.focus {
            ConversorFocus::Input => ConversorStateView { input: s.input.push(c), ..s },
            ConversorFocus::SourceCustom => {
                let (b, buf) = custom_char_step(s.source_base, s.source_custom_input, c);
                ConversorStateView { source_base: b, source_custom_input: buf, ..s }
            },
            ConversorFocus::TargetCustom => {
                let (b, buf) = custom_char_step(s.target_base, s.target_custom_input, c);
                ConversorStateView { target_base: b, target_custom_input: buf, ..s }
            },
            _ => s,
        },
        Key::Backspace => match s.focus {
            ConversorFocus::Input => ConversorStateView { input: pop_spec(s.input), ..s },
            ConversorFocus::SourceCustom => ConversorStateView {
                source_custom_input: pop_spec(s.source_custom_input),
                ..s
            },
            ConversorFocus::TargetCustom => ConversorStateView {
                target_custom_input: pop_spec(s.target_custom_input),
                ..s
            },
            _ => s,
        },
        Key::Right | Key::Left => {
            let step = |b: Base|
                if key == Key::Right {
                    base_next(b)
                } else {
                    base_prev(b)
                };
            match s.focus {
                ConversorFocus::SourceBase => {
                    let b = step(s.source_base);
                    ConversorStateView {
                        source_base: b,
                        source_custom_input: if b is Custom {
                            seq![]
                        } else {
                            s.source_custom_input
                        },
                        ..s
                    }
                },
                ConversorFocus::TargetBase => {
                    let b = step(s.target_base);
                    ConversorStateView {
                        target_base: b,
                        target_custom_input: if b is Custom {
                            seq![]
                        } else {
                            s.target_custom_input
                        },
                        ..s
                    }
                },
                _ => s,
            }
        },
        Key::Enter => if s.focus == ConversorFocus::SourceBase && source_custom {
            ConversorStateView { focus: ConversorFocus::SourceCustom, ..s }
        } else if s.focus == ConversorFocus::TargetBase && target_custom {
            ConversorStateView { focus: ConversorFocus::TargetCustom, ..s }
        } else {
            ConversorStateView { error: None, ..s }
        },
        _ => s,
    }
}


/// Applies a key to the converter tab.
fn handle_conversor(state: &mut ConversorState, key: Key)
    ensures
        final(state)@ == conversor_step(old(state)@, key),
{
    let source_custom = state.source_base.is_custom();
    let target_custom = state.target_base.is_custom();
    match key {
        Key::Tab => {
            match state.focus {
                ConversorFocus::SourceCustom => {
                    let buf = state.source_custom_input.clone();
                    commit_custom_base(&mut state.source_base, buf.as_str());
                },
                ConversorFocus::TargetCustom => {
                    let buf = state.target_custom_input.clone();
                    commit_custom_base(&mut state.target_base, buf.as_str());
                },
                _ => {},
            }
            state.focus = state.focus.next(
                state.source_base.is_custom(),
                state.target_base.is_custom(),
            );
        },
        Key::Esc => match state.focus {
            ConversorFocus::SourceCustom => state.focus = ConversorFocus::SourceBase,
            ConversorFocus::TargetCustom => state.focus = ConversorFocus::TargetBase,
            _ => {},
        },
        Key::Char(c) if state.focus == ConversorFocus::Input => {
            push_char(&mut state.input, c);
        },
        Key::Backspace if state.focus == ConversorFocus::Input => {
            pop_char(&mut state.input);
        },
        Key::Right if state.focus == ConversorFocus::SourceBase => {
            state.source_base = state.source_base.next();
            if state.source_base.is_custom() {
                state.source_custom_input = String::new();
            }
        },
        Key::Left if state.focus == ConversorFocus::SourceBase => {
            state.source_base = state.source_base.prev();
            if state.source_base.is_custom() {
                state.source_custom_input = String::new();
            }
        },
        Key::Enter if state.focus == ConversorFocus::SourceBase && source_custom => {
            state.focus = ConversorFocus::SourceCustom;
        },
        Key::Char(c) if state.focus == ConversorFocus::SourceCustom => {
            if '0' <= c && c <= '9' && has_fewer_than_two_bytes(&state.source_custom_input) {
                push_char(&mut state.source_custom_input, c);
                let buf = state.source_custom_input.clone();
                commit_custom_base(&mut state.source_base, buf.as_str());
            }
        },
        Key::Backspace if state.focus == ConversorFocus::SourceCustom => {
            pop_char(&mut state.source_custom_input);
        },
        Key::Right if state.focus == ConversorFocus::TargetBase => {
            state.target_base = state.target_base.next();
            if state.target_base.is_custom() {
                state.target_custom_input = String::new();
            }
        },
        Key::Left if state.focus == ConversorFocus::TargetBase => {
            state.target_base = state.target_base.prev();
            if state.target_base.is_custom() {
                state.target_custom_input = String::new();
            }
        },
        Key::Enter if state.focus == ConversorFocus::TargetBase && target_custom => {
            state.focus = ConversorFocus::TargetCustom;
        },
        Key::Char(c) if state.focus == ConversorFocus::TargetCustom => {
            if '0' <= c && c <= '9' && has_fewer_than_two_bytes(&state.target_custom_input) {
                push_char(&mut state.target_custom_input, c);
                let buf = state.target_custom_input.clone();
                commit_custom_base(&mut state.target_base, buf.as_str());
            }
        },
        Key::Backspace if state.focus == ConversorFocus::TargetCustom => {
            pop_char(&mut state.target_custom_input);
        },
        Key::Enter => {
            state.error = None;
        },
        _ => {},
    }
}

/// How a key changes the trace tab: right, 'l' and 'd' go forward; left,
/// 'h' and 'a' go back.
pub open spec fn trace_step(t: TraceStateView, key: Key) -> TraceStateView {
    if key == Key::Right || key == Key::Char('l') || key == Key::Char('d') {
        trace_forward(t)
    } else if key == Key::Left || key == Key::Char('h') || key == Key::Char('a') {
        trace_back(t)
    } else {
        t
    }
}

/// The keys that move the trace forward.
pub open spec fn is_forward_key(key: Key) -> bool {
    key == Key::Right || key == Key::Char('l') || key == Key::Char('d')
}

/// Applies a key to the trace tab.
fn handle_trace(state: &mut TraceState, key: Key)
    requires
        is_forward_key(key) && old(state)@.passos.len() > 0 ==> old(state)@.passo_atual
            < usize::MAX,
    ensures
        final(state)@ == trace_step(old(state)@, key),
{
    match key {
        Key::Right | Key::Char('l') | Key::Char('d') => state.avancar(),
        Key::Left | Key::Char('h') | Key::Char('a') => state.recuar(),
        _ => {},
    }
}

/// How a key changes the selected file of the batch tab: down selects the
/// next one, up the previous one (never below the first).
pub open spec fn batch_step(selected: usize, key: Key) -> usize {
    if key == Key::Down {
        (selected + 1) as usize
    } else if key == Key::Up && selected > 0 {
        (selected - 1) as usize
    } else {
        selected
    }
}

/// Applies a key to the batch tab.
fn handle_batch(state: &mut BatchState, key: Key)
    requires
        key == Key::Down ==> old(state).selected_file < usize::MAX,
    ensures
        final(state).selected_file == batch_step(old(state).selected_file, key),
{
    match key {
        Key::Down => state.selected_file += 1,
        Key::Up => {
            if state.selected_file > 0 {
                state.selected_file -= 1;
            }
        },
        _ => {},
    }
}

/// The whole state of the interface.
pub struct App {
    pub tab: Tabs,
    pub batch: BatchState,
    pub conversor: ConversorState,
    pub trace: TraceState,
}

/// Model of an [`App`].
pub struct AppView {
    pub tab: Tabs,
    pub selected_file: usize,
    pub conversor: ConversorStateView,
    pub trace: TraceStateView,
}

impl View for App {
    type V = AppView;

    open spec fn view(&self) -> AppView {
        AppView {
            tab: self.tab,
            selected_file: self.batch.selected_file,
            conversor: self.conversor@,
            trace: self.trace@,
        }
    }
}

/// The tab that a digit key selects.
pub open spec fn tab_of_key(key: Key) -> Option<Tabs> {
    if key == Key::Char('1') {
        Some(Tabs::Conversor)
    } else if key == Key::Char('2') {
        Some(Tabs::Trace)
    } else if key == Key::Char('3') {
        Some(Tabs::Quiz)
    } else if key == Key::Char('4') {
        Some(Tabs::Batch)
    } else if key == Key::Char('5') {
        Some(Tabs::Max)
    } else {
        None
    }
}

/// The keys for which the interface is defined in a state: moving forward
/// past the last possible step index, or below the last file index, would
/// overflow.
pub open spec fn key_defined(a: AppView, key: Key) -> bool {
    &&& (a.tab == Tabs::Trace && is_forward_key(key) && a.trace.passos.len() > 0) ==> a.trace.passo_atual < usize::MAX
    &&& (a.tab == Tabs::Batch && key == Key::Down) ==> a.selected_file < usize::MAX
}

/// How a key changes the interface: unless text is being typed in the
/// converter, the digits 1 to 5 select a tab; otherwise the key goes to the
/// tab on screen.
pub open spec fn app_step(a: AppView, key: Key) -> AppView {
    let typing = a.tab == Tabs::Conversor && focus_is_typing(a.conversor.focus);
    if !typing && tab_of_key(key) is Some {
        AppView { tab: tab_of_key(key)->0, ..a }
    } else {
        match a.tab {
            Tabs::Conversor => AppView { conversor: conversor_step(a.conversor, key), ..a },
            Tabs::Trace => AppView { trace: trace_step(a.trace, key), ..a },
            Tabs::Batch => AppView { selected_file: batch_step(a.selected_file, key), ..a },
            _ => a,
        }
    }
}

impl App {
    pub fn new() -> (r: Self)
        ensures
            r@.tab == Tabs::Conversor,
            r@.selected_file == 0,
            r@.conversor.input.len() == 0,
            r@.conversor.source_base == Base::Auto,
            r@.conversor.source_custom_input.len() == 0,
            r@.conversor.target_base == Base::Bin,
            r@.conversor.target_custom_input.len() == 0,
            r@.conversor.output.len() == 0,
            r@.conversor.error is None,
            r@.conversor.focus == ConversorFocus::Input,
            r@.trace.valor_original.len() == 0,
            r@.trace.base_origem == 10,
            r@.trace.base_destino == 2,
            r@.trace.resultado.len() == 0,
            r@.trace.passos.len() == 0,
            r@.trace.passo_atual == 0,
    {
        Self {
            tab: Tabs::Conversor,
            batch: BatchState { selected_file: 0 },
            conversor: ConversorState::new(),
            trace: TraceState::default(),
        }
    }

    /// Whether `handle_key` is defined for `key` in this state.
    pub fn accepts_key(&self, key: Key) -> (r: bool)
        ensures
            r == key_defined(self@, key),
    {
        let forward = match key {
            Key::Right | Key::Char('l') | Key::Char('d') => true,
            _ => false,
        };
        let trace_overflow = self.tab == Tabs::Trace && forward && !self.trace.passos.is_empty()
            && self.trace.passo_atual == usize::MAX;
        let batch_overflow = self.tab == Tabs::Batch && key == Key::Down
            && self.batch.selected_file == usize::MAX;
        !trace_overflow && !batch_overflow
    }

    /// Applies a key to the interface.
    pub fn handle_key(&mut self, key: Key)
        requires
            key_defined(old(self)@, key),
        ensures
            final(self)@ == app_step(old(self)@, key),
    {
        let typing = match self.tab {
            Tabs::Conversor => self.conversor.focus.is_typing(),
            _ => false,
        };
        if !typing {
            match key {
                Key::Char('1') => {
                    self.tab = Tabs::Conversor;
                    return;
                },
                Key::Char('2') => {
                    self.tab = Tabs::Trace;
                    return;
                },
                Key::Char('3') => {
                    self.tab = Tabs::Quiz;
                    return;
                },
                Key::Char('4') => {
                    self.tab = Tabs::Batch;
                    return;
                },
                Key::Char('5') => {
                    self.tab = Tabs::Max;
                    return;
                },
                _ => {},
            }
        }
        match self.tab {
            Tabs::Conversor => handle_conversor(&mut self.conversor, key),
            Tabs::Trace => handle_trace(&mut self.trace, key),
            Tabs::Batch => handle_batch(&mut self.batch, key),
            _ => {},
        }
    }
}


/// A custom base field as it can stand: at most two decimal digits.
pub open spec fn custom_buffer_ok(buf: Seq<char>) -> bool {
    buf.len() <= 2 && forall|i: int| 0 <= i < buf.len() ==> is_decimal_char(#[trigger] buf[i])
}

/// The custom base fields of the converter hold at most two decimal digits
/// each, and a custom base chosen on either side lies between 2 and 36.
pub open spec fn custom_fields_ok(s: ConversorStateView) -> bool {
    &&& custom_buffer_ok(s.source_custom_input)
    &&& custom_buffer_ok(s.target_custom_input)
    &&& (s.source_base matches Base::Custom(n) ==> 2 <= n <= 36)
    &&& (s.target_base matches Base::Custom(n) ==> 2 <= n <= 36)
}

proof fn lemma_custom_char_step(base: Base, buf: Seq<char>, c: char)
    requires
        custom_buffer_ok(buf),
        base matches Base::Custom(n) ==> 2 <= n <= 36,
    ensures
        custom_buffer_ok(custom_char_step(base, buf, c).1),
        custom_char_step(base, buf, c).0 matches Base::Custom(n) ==> 2 <= n <= 36,
{
    if is_decimal_char(c) && fewer_than_two_bytes(buf) {
        let b = buf.push(c);
        assert forall|i: int| 0 <= i < b.len() implies is_decimal_char(#[trigger] b[i]) by {
            if i < buf.len() {
                assert(b[i] == buf[i]);
            }
        }
    }
}

proof fn lemma_pop_buffer(buf: Seq<char>)
    requires
        custom_buffer_ok(buf),
    ensures
        custom_buffer_ok(pop_spec(buf)),
{
    if buf.len() > 0 {
        assert forall|i: int| 0 <= i < pop_spec(buf).len() implies is_decimal_char(
            #[trigger] pop_spec(buf)[i],
        ) by {
            assert(pop_spec(buf)[i] == buf[i]);
        }
    }
}

/// Whatever key is pressed, the converter keeps its custom base fields to
/// at most two decimal digits and any custom base it selects between 2 and
/// 36; a fresh converter tab starts that way.
pub proof fn lemma_custom_fields_kept(s: ConversorStateView, key: Key)
    requires
        custom_fields_ok(s),
    ensures
        custom_fields_ok(conversor_step(s, key)),
{
    if let Key::Char(c) = key {
        lemma_custom_char_step(s.source_base, s.source_custom_input, c);
        lemma_custom_char_step(s.target_base, s.target_custom_input, c);
    }
    lemma_pop_buffer(s.source_custom_input);
    lemma_pop_buffer(s.target_custom_input);
    assert(custom_buffer_ok(Seq::<char>::empty()));
}

/// The base a selector hands over is the base its label names: BIN is 2,
/// OCT 8, DEC 10, HEX 16 and a custom selector its own number, both as the
/// base number and as the hint to the parser; AUTO gives no hint.
pub proof fn lemma_selector_label_names_base(b: Base)
    ensures
        base_label(b) == "BIN"@ ==> base_number(b) == 2 && base_hint(b) == Some(2u8),
        base_label(b) == "OCT"@ ==> base_number(b) == 8 && base_hint(b) == Some(8u8),
        base_label(b) == "DEC"@ ==> base_number(b) == 10 && base_hint(b) == Some(10u8),
        base_label(b) == "HEX"@ ==> base_number(b) == 16 && base_hint(b) == Some(16u8),
        base_label(b) == "AUTO"@ ==> base_hint(b) is None,
        b matches Base::Custom(n) ==> base_number(b) == n && base_hint(b) == Some(n),
{
    reveal_strlit("AUTO");
    reveal_strlit("BIN");
    reveal_strlit("OCT");
    reveal_strlit("DEC");
    reveal_strlit("HEX");
    reveal_strlit("CUSTOM");
    assert("AUTO"@[0] == 'A' && "BIN"@[0] == 'B' && "OCT"@[0] == 'O');
    assert("DEC"@[0] == 'D' && "HEX"@[0] == 'H' && "CUSTOM"@[0] == 'C');
    assert(base_label(b)[0] == "AUTO"@[0] <==> b == Base::Auto);
    assert(base_label(b)[0] == "BIN"@[0] <==> b == Base::Bin);
    assert(base_label(b)[0] == "OCT"@[0] <==> b == Base::Oct);
    assert(base_label(b)[0] == "DEC"@[0] <==> b == Base::Dec);
    assert(base_label(b)[0] == "HEX"@[0] <==> b == Base::Hex);
}

/// Moving forward then back in the base selector, or back then forward,
/// returns to the same base; the only exception is a custom base other
/// than 10, which comes back as custom base 10.
pub proof fn lemma_selector_round_trip(b: Base)
    ensures
        (b !is Custom || b == Base::Custom(10)) ==> base_prev(base_next(b)) == b && base_next(
            base_prev(b),
        ) == b,
        b is Custom ==> base_prev(base_next(b)) == Base::Custom(10) && base_next(base_prev(b))
            == Base::Custom(10),
{
}

/// The hint of a selector is its base number, except for `Auto`, which
/// gives no hint (and counts as 10).
pub proof fn lemma_hint_agrees_with_number(b: Base)
    ensures
        b != Base::Auto ==> base_hint(b) == Some(base_number(b)),
        b == Base::Auto ==> base_hint(b) is None && base_number(b) == 10,
{
}

/// Navigating the trace keeps the highlighted step among the steps, changes
/// nothing else, and a step forward followed by a step back (or back, then
/// forward) returns to the same step whenever the first move happened.
pub proof fn lemma_trace_navigation(t: TraceStateView)
    requires
        t.passo_atual < t.passos.len() <= usize::MAX,
    ensures
        trace_forward(t).passo_atual < t.passos.len(),
        trace_back(t).passo_atual < t.passos.len(),
        trace_forward(t).passos == t.passos && trace_back(t).passos == t.passos,
        t.passo_atual + 1 < t.passos.len() ==> trace_back(trace_forward(t)) == t,
        t.passo_atual > 0 ==> trace_forward(trace_back(t)) == t,
{
    if t.passo_atual + 1 < t.passos.len() {
        let u = trace_back(trace_forward(t));
        assert(u.passo_atual == t.passo_atual);
        assert(u =~= t);
    }
}

/// Selecting a tab by its digit selects the tab with that number, whenever
/// no text is being typed in the converter.
pub proof fn lemma_tab_keys(a: AppView, n: int)
    requires
        1 <= n <= 5,
        !(a.tab == Tabs::Conversor && focus_is_typing(a.conversor.focus)),
    ensures
        tab_number(app_step(a, Key::Char(('0' as int + n) as char)).tab) == n,
{
    let k = Key::Char(('0' as int + n) as char);
    assert(tab_of_key(k) is Some);
}


/// What a line of a trace shows, which decides how it is drawn.
#[derive(PartialEq, Eq, Clone, Copy, Debug, Structural)]
pub enum StepKind {
    /// The final result.
    Result,
    /// A digit times a power of the base (base to decimal).
    Multiplication,
    /// A division with remainder (decimal to base).
    Division,
    /// Anything else.
    Other,
}

/// The kind of a trace line: it starts with "Result"; or it holds "x " and
/// a '^'; or it holds " / ".
pub open spec fn step_kind_spec(line: Seq<char>) -> StepKind {
    if starts_with(line, "Result"@) {
        StepKind::Result
    } else if contains(line, "x "@) && contains(line, "^"@) {
        StepKind::Multiplication
    } else if contains(line, " / "@) {
        StepKind::Division
    } else {
        StepKind::Other
    }
}

/// The kind of a trace line.
pub fn step_kind(line: &str) -> (k: StepKind)
    ensures
        k == step_kind_spec(line@),
{
    let cs = chars_of(line);
    let result = chars_of("Result");
    if starts_with_chars(cs.as_slice(), result.as_slice()) {
        return StepKind::Result;
    }
    let times = chars_of("x ");
    let caret = chars_of("^");
    if contains_chars(cs.as_slice(), times.as_slice()) && contains_chars(
        cs.as_slice(),
        caret.as_slice(),
    ) {
        return StepKind::Multiplication;
    }
    let division = chars_of(" / ");
    if contains_chars(cs.as_slice(), division.as_slice()) {
        return StepKind::Division;
    }
    StepKind::Other
}

/// The filled and empty cells of the five-cell progress bar of the trace:
/// filled in proportion to the step reached (all five for a single step).
pub open spec fn progress_spec(atual: nat, total: nat) -> (nat, nat) {
    let cheios: nat = if total > 1 {
        (atual * 5) / ((total - 1) as nat)
    } else {
        5
    };
    (cheios, if cheios < 5 {
        (5 - cheios) as nat
    } else {
        0
    })
}

/// The filled and empty cells of the progress bar.
pub fn progress_counts(atual: usize, total: usize) -> (r: (usize, usize))
    requires
        total > 1 ==> atual * 5 <= usize::MAX,
    ensures
        (r.0 as nat, r.1 as nat) == progress_spec(atual as nat, total as nat),
{
    let largura: usize = 5;
    let cheios = if total > 1 {
        (atual * largura) / (total - 1)
    } else {
        largura
    };
    let vazios = largura.saturating_sub(cheios);
    (cheios, vazios)
}

/// The file shown as selected among `count` files: the selection, but at
/// most the last file (0 when there is none).
pub fn selected_index(selected: usize, count: usize) -> (r: usize)
    ensures
        count == 0 ==> r == 0,
        count > 0 ==> r == if selected < count - 1 {
            selected
        } else {
            (count - 1) as usize
        },
{
    if count == 0 {
        0
    } else if selected < count - 1 {
        selected
    } else {
        count - 1
    }
}

} // verus!
