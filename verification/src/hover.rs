//! Editor help at a position: the word under the cursor, the hover text of
//! keywords and built-ins, and where a name is defined.
use vstd::prelude::*;
use crate::ast::{ClassDefinition, Component, StoredDefinition};
use crate::code_lens::{alphanumeric, is_alphanumeric_char, text_lines};
use crate::names::views;
use crate::types::text_is;
use crate::ast::{Causality, ClassType, Token, Variability};
use crate::code_lens::{decimal, write_decimal};
use crate::diagnostics::{literal_dimensions, literal_dims};
use crate::formatter::{name_text, write_name};
use crate::lint::{class_type_name, format_class_type};
use crate::scope::{
    find_named, get_class as find_top_class, get_nested as find_nested_class, nested_named, resolve_spec, Resolution,
    ResolvedSymbol, ScopeResolver,
};

verus! {

/// A character of a word: a letter, a number or `_`.
pub open spec fn word_char(c: char) -> bool {
    is_alphanumeric_char(c) || c == '_'
}

/// Where the word around position `k` of a line starts.
pub open spec fn word_start(line: Seq<char>, k: int) -> int
    decreases k,
{
    if k <= 0 {
        0
    } else if !word_char(line[k - 1]) {
        k
    } else {
        word_start(line, k - 1)
    }
}

/// Where the word around position `k` of a line ends.
pub open spec fn word_end(line: Seq<char>, k: int) -> int
    decreases line.len() - k,
{
    if k >= line.len() {
        line.len() as int
    } else if !word_char(line[k]) {
        k
    } else {
        word_end(line, k + 1)
    }
}

/// The word at a position (line and character, from 0) of a text: the
/// letters, numbers and `_` around it; none where the line or column is
/// past the text, or no such character touches the position.
pub open spec fn word_at_position(text: Seq<char>, line: u32, character: u32) -> Option<Seq<char>> {
    let lines = text_lines(text);
    if line < lines.len() && character <= lines[line as int].len() {
        let l = lines[line as int];
        let s = word_start(l, character as int);
        let e = word_end(l, character as int);
        if s < e {
            Some(l.subrange(s, e))
        } else {
            None
        }
    } else {
        None
    }
}

fn is_word_char(c: char) -> (r: bool)
    ensures
        r == word_char(c),
{
    alphanumeric(c) || c == '_'
}

proof fn lemma_word_start_bounds(line: Seq<char>, k: int)
    requires
        0 <= k <= line.len(),
    ensures
        0 <= word_start(line, k) <= k,
    decreases k,
{
    if k > 0 && word_char(line[k - 1]) {
        lemma_word_start_bounds(line, k - 1);
    }
}

proof fn lemma_word_end_bounds(line: Seq<char>, k: int)
    requires
        0 <= k <= line.len(),
    ensures
        k <= word_end(line, k) <= line.len(),
    decreases line.len() - k,
{
    if k < line.len() && word_char(line[k]) {
        lemma_word_end_bounds(line, k + 1);
    }
}

/// The word at a position of a text (see `word_at_position`).
pub fn get_word_at_position(text: &str, line: u32, character: u32) -> (r: Option<String>)
    ensures
        match r {
            Some(w) => word_at_position(text@, line, character) == Some(w@),
            None => word_at_position(text@, line, character) is None,
        },
{
    let chars = crate::text::str_to_chars(text);
    let lines = crate::outline::lines_of(&chars);
    let ghost lv = views(lines@);
    if (line as usize) >= lines.len() {
        return None;
    }
    let l = &lines[line as usize];
    proof {
        assert(lv[line as int] == l@);
    }
    let col = character as usize;
    if col > l.len() {
        return None;
    }
    let mut s = col;
    while s > 0 && is_word_char(l[s - 1])
        invariant
            s <= col,
            col <= l@.len(),
            word_start(l@, col as int) == word_start(l@, s as int),
        decreases s,
    {
        s = s - 1;
    }
    let mut e = col;
    while e < l.len() && is_word_char(l[e])
        invariant
            col <= e <= l@.len(),
            word_end(l@, col as int) == word_end(l@, e as int),
        decreases l.len() - e,
    {
        e = e + 1;
    }
    if s >= e {
        return None;
    }
    let mut w: Vec<char> = Vec::new();
    let mut k = s;
    while k < e
        invariant
            s <= k <= e,
            e <= l@.len(),
            w@ == l@.subrange(s as int, k as int),
        decreases e - k,
    {
        w.push(l[k]);
        assert(l@.subrange(s as int, k as int + 1) =~= l@.subrange(s as int, k as int).push(l@[k as int]));
        k = k + 1;
    }
    Some(crate::text::chars_to_string(&w))
}

// ---------------------------------------------------------------------------
// Definitions
// ---------------------------------------------------------------------------

/// Where the first component of `cs` named `n` that has a type is declared:
/// its type's first token.
pub open spec fn comps_definition(cs: Seq<Component>, n: Seq<char>) -> Option<(u32, u32)>
    decreases cs.len(),
{
    if cs.len() == 0 {
        None
    } else {
        match comps_definition(cs.drop_last(), n) {
            Some(p) => Some(p),
            None => {
                let c = cs.last();
                if c.name@ == n && c.type_path.name@.len() > 0 {
                    Some((c.type_path.name@[0].location.start_line, c.type_path.name@[0].location.start_column))
                } else {
                    None
                }
            },
        }
    }
}

/// Where `n` is defined in a class: the class's own name, else a component
/// (see `comps_definition`), else in its nested classes, the first found.
pub open spec fn class_definition(c: ClassDefinition, n: Seq<char>) -> Option<(u32, u32)>
    decreases c, 1nat,
{
    if c.name.text@ == n {
        Some((c.name.location.start_line, c.name.location.start_column))
    } else {
        match comps_definition(c.components@, n) {
            Some(p) => Some(p),
            None => classes_definition(c.classes@, n),
        }
    }
}

/// Where `n` is defined in the first of the classes that defines it.
pub open spec fn classes_definition(cs: Seq<ClassDefinition>, n: Seq<char>) -> Option<(u32, u32)>
    decreases cs, 0nat,
{
    if cs.len() == 0 {
        None
    } else {
        match classes_definition(cs.drop_last(), n) {
            Some(p) => Some(p),
            None => class_definition(cs.last(), n),
        }
    }
}

/// Where `name` is defined in a class (see `class_definition`), as line and column from 1.
pub fn find_definition_in_class(class: &ClassDefinition, name: &String) -> (r: Option<(u32, u32)>)
    ensures
        r == class_definition(*class, name@),
    decreases class, 1nat,
{
    if class.name.text == *name {
        return Some((class.name.location.start_line, class.name.location.start_column));
    }
    let cs = &class.components;
    let mut i: usize = 0;
    while i < cs.len()
        invariant
            i <= cs@.len(),
            cs == &class.components,
            class.name.text@ != name@,
            comps_definition(cs@.take(i as int), name@) is None,
        decreases cs.len() - i,
    {
        proof {
            let t = cs@.take(i as int + 1);
            assert(t.drop_last() =~= cs@.take(i as int));
            assert(t.last() == cs@[i as int]);
        }
        let c = &cs[i];
        if c.name == *name && c.type_path.name.len() > 0 {
            let p = (c.type_path.name[0].location.start_line, c.type_path.name[0].location.start_column);
            proof {
                let t = cs@.take(i as int + 1);
                assert(t.drop_last() =~= cs@.take(i as int));
                assert(comps_definition(t, name@) == Some(p));
                lemma_comps_definition_prefix(cs@, name@, i as int + 1);
            }
            return Some(p);
        }
        i = i + 1;
    }
    assert(cs@.take(i as int) =~= cs@);
    proof {
        assert(decreases_to!(class => class.classes));
    }
    find_definition_in_classes(&class.classes, name)
}

proof fn lemma_comps_definition_prefix(cs: Seq<Component>, n: Seq<char>, k: int)
    requires
        0 <= k <= cs.len(),
        comps_definition(cs.take(k), n) is Some,
    ensures
        comps_definition(cs, n) == comps_definition(cs.take(k), n),
    decreases cs.len(),
{
    if k < cs.len() {
        assert(cs.drop_last().take(k) =~= cs.take(k));
        lemma_comps_definition_prefix(cs.drop_last(), n, k);
    } else {
        assert(cs.take(k) =~= cs);
    }
}

proof fn lemma_classes_definition_prefix(cs: Seq<ClassDefinition>, n: Seq<char>, k: int)
    requires
        0 <= k <= cs.len(),
        classes_definition(cs.take(k), n) is Some,
    ensures
        classes_definition(cs, n) == classes_definition(cs.take(k), n),
    decreases cs.len(),
{
    if k < cs.len() {
        assert(cs.drop_last().take(k) =~= cs.take(k));
        lemma_classes_definition_prefix(cs.drop_last(), n, k);
    } else {
        assert(cs.take(k) =~= cs);
    }
}

/// Where `name` is defined in the first of the classes that defines it.
fn find_definition_in_classes(cs: &Vec<ClassDefinition>, name: &String) -> (r: Option<(u32, u32)>)
    ensures
        r == classes_definition(cs@, name@),
    decreases cs, 0nat,
{
    let mut i: usize = 0;
    while i < cs.len()
        invariant
            i <= cs@.len(),
            classes_definition(cs@.take(i as int), name@) is None,
        decreases cs.len() - i,
    {
        proof {
            let t = cs@.take(i as int + 1);
            assert(t.drop_last() =~= cs@.take(i as int));
            assert(t.last() == cs@[i as int]);
            assert(decreases_to!(cs => cs@[i as int]));
        }
        let found = find_definition_in_class(&cs[i], name);
        if found.is_some() {
            proof {
                lemma_classes_definition_prefix(cs@, name@, i as int + 1);
            }
            return found;
        }
        i = i + 1;
    }
    assert(cs@.take(i as int) =~= cs@);
    None
}

/// Where `name` is defined in a document: in the first of its classes that
/// defines it (see `class_definition`).
pub fn find_definition_in_ast(def: &StoredDefinition, name: &String) -> (r: Option<(u32, u32)>)
    ensures
        r == classes_definition(def.class_list@, name@),
{
    find_definition_in_classes(&def.class_list, name)
}

// ---------------------------------------------------------------------------
// Hover texts
// ---------------------------------------------------------------------------

/// The hover text of a keyword, a predefined type or a built-in operator or function.
pub open spec fn hover_text(word: Seq<char>) -> Option<Seq<char>> {
    if word == "model"@ {
        Some("**model**\n\nA model is a class that can contain equations and may be instantiated."@)
    } else if word == "class"@ {
        Some("**class**\n\nA general class definition. Models, connectors, and other specialized classes inherit from class."@)
    } else if word == "connector"@ {
        Some("**connector**\n\nA connector defines the interface for connections between components."@)
    } else if word == "package"@ {
        Some("**package**\n\nA package is a namespace for organizing classes and models."@)
    } else if word == "function"@ {
        Some("**function**\n\nA function is a class that computes outputs from inputs using algorithms."@)
    } else if word == "record"@ {
        Some("**record**\n\nA record is a class used as a data structure without equations."@)
    } else if word == "block"@ {
        Some("**block**\n\nA block is a class with fixed causality for inputs and outputs."@)
    } else if word == "type"@ {
        Some("**type**\n\nDefines a type alias or derived type."@)
    } else if word == "parameter"@ {
        Some("**parameter**\n\nA parameter is a variable that remains constant during simulation but can be changed between simulations."@)
    } else if word == "constant"@ {
        Some("**constant**\n\nA constant is a variable whose value cannot be changed."@)
    } else if word == "input"@ {
        Some("**input**\n\nDeclares an input connector variable."@)
    } else if word == "output"@ {
        Some("**output**\n\nDeclares an output connector variable."@)
    } else if word == "flow"@ {
        Some("**flow**\n\nDeclares a flow variable (summed to zero in connections)."@)
    } else if word == "stream"@ {
        Some("**stream**\n\nDeclares a stream variable for bidirectional flow."@)
    } else if word == "Real"@ {
        Some("**Real**\n\nFloating-point number type.\n\nAttributes: `unit`, `displayUnit`, `min`, `max`, `start`, `fixed`, `nominal`, `stateSelect`"@)
    } else if word == "Integer"@ {
        Some("**Integer**\n\nInteger number type.\n\nAttributes: `min`, `max`, `start`, `fixed`"@)
    } else if word == "Boolean"@ {
        Some("**Boolean**\n\nBoolean type with values `true` and `false`.\n\nAttributes: `start`, `fixed`"@)
    } else if word == "String"@ {
        Some("**String**\n\nString type for text.\n\nAttributes: `start`"@)
    } else if word == "der"@ {
        Some("**der(x)**\n\nTime derivative of variable x.\n\n```modelica\nder(x) = v;  // dx/dt = v\n```"@)
    } else if word == "pre"@ {
        Some("**pre(x)**\n\nThe value of x immediately before an event.\n\nUsed in when-clauses to access previous values."@)
    } else if word == "time"@ {
        Some("**time**\n\nBuilt-in variable representing simulation time."@)
    } else if word == "equation"@ {
        Some("**equation**\n\nSection containing equations that define the mathematical relationships."@)
    } else if word == "algorithm"@ {
        Some("**algorithm**\n\nSection containing sequential assignment statements."@)
    } else if word == "connect"@ {
        Some("**connect(a, b)**\n\nCreates a connection between connectors a and b."@)
    } else if word == "when"@ {
        Some("**when**\n\nEvent-triggered section. Equations inside are active only when condition becomes true."@)
    } else if word == "if"@ {
        Some("**if**\n\nConditional expression or statement."@)
    } else if word == "for"@ {
        Some("**for**\n\nLoop construct for iteration."@)
    } else if word == "extends"@ {
        Some("**extends**\n\nInheritance from a base class."@)
    } else if word == "import"@ {
        Some("**import**\n\nImports classes from other packages."@)
    } else if word == "within"@ {
        Some("**within**\n\nSpecifies the package this file belongs to."@)
    } else if word == "annotation"@ {
        Some("**annotation**\n\nMetadata for documentation, icons, experiments, etc."@)
    } else if word == "sin"@ {
        Some("**sin(x)**\n\nSine function. Returns the sine of x (in radians)."@)
    } else if word == "cos"@ {
        Some("**cos(x)**\n\nCosine function. Returns the cosine of x (in radians)."@)
    } else if word == "tan"@ {
        Some("**tan(x)**\n\nTangent function. Returns the tangent of x (in radians)."@)
    } else if word == "exp"@ {
        Some("**exp(x)**\n\nExponential function. Returns e^x."@)
    } else if word == "log"@ {
        Some("**log(x)**\n\nNatural logarithm. Returns ln(x)."@)
    } else if word == "sqrt"@ {
        Some("**sqrt(x)**\n\nSquare root. Returns √x."@)
    } else if word == "abs"@ {
        Some("**abs(x)**\n\nAbsolute value. Returns |x|."@)
    } else if word == "min"@ {
        Some("**min(a, b)**\n\nReturns the minimum of a and b."@)
    } else if word == "max"@ {
        Some("**max(a, b)**\n\nReturns the maximum of a and b."@)
    } else {
        None
    }
}

/// The hover text of a word (see `hover_text`).
pub fn get_hover_info(word: &str) -> (r: Option<String>)
    ensures
        match r {
            Some(s) => hover_text(word@) == Some(s@),
            None => hover_text(word@) is None,
        },
{
    if text_is(word, "model") {
        return Some("**model**\n\nA model is a class that can contain equations and may be instantiated.".to_owned());
    }
    if text_is(word, "class") {
        return Some("**class**\n\nA general class definition. Models, connectors, and other specialized classes inherit from class.".to_owned());
    }
    if text_is(word, "connector") {
        return Some("**connector**\n\nA connector defines the interface for connections between components.".to_owned());
    }
    if text_is(word, "package") {
        return Some("**package**\n\nA package is a namespace for organizing classes and models.".to_owned());
    }
    if text_is(word, "function") {
        return Some("**function**\n\nA function is a class that computes outputs from inputs using algorithms.".to_owned());
    }
    if text_is(word, "record") {
        return Some("**record**\n\nA record is a class used as a data structure without equations.".to_owned());
    }
    if text_is(word, "block") {
        return Some("**block**\n\nA block is a class with fixed causality for inputs and outputs.".to_owned());
    }
    if text_is(word, "type") {
        return Some("**type**\n\nDefines a type alias or derived type.".to_owned());
    }
    if text_is(word, "parameter") {
        return Some("**parameter**\n\nA parameter is a variable that remains constant during simulation but can be changed between simulations.".to_owned());
    }
    if text_is(word, "constant") {
        return Some("**constant**\n\nA constant is a variable whose value cannot be changed.".to_owned());
    }
    if text_is(word, "input") {
        return Some("**input**\n\nDeclares an input connector variable.".to_owned());
    }
    if text_is(word, "output") {
        return Some("**output**\n\nDeclares an output connector variable.".to_owned());
    }
    if text_is(word, "flow") {
        return Some("**flow**\n\nDeclares a flow variable (summed to zero in connections).".to_owned());
    }
    if text_is(word, "stream") {
        return Some("**stream**\n\nDeclares a stream variable for bidirectional flow.".to_owned());
    }
    if text_is(word, "Real") {
        return Some("**Real**\n\nFloating-point number type.\n\nAttributes: `unit`, `displayUnit`, `min`, `max`, `start`, `fixed`, `nominal`, `stateSelect`".to_owned());
    }
    if text_is(word, "Integer") {
        return Some("**Integer**\n\nInteger number type.\n\nAttributes: `min`, `max`, `start`, `fixed`".to_owned());
    }
    if text_is(word, "Boolean") {
        return Some("**Boolean**\n\nBoolean type with values `true` and `false`.\n\nAttributes: `start`, `fixed`".to_owned());
    }
    if text_is(word, "String") {
        return Some("**String**\n\nString type for text.\n\nAttributes: `start`".to_owned());
    }
    if text_is(word, "der") {
        return Some("**der(x)**\n\nTime derivative of variable x.\n\n```modelica\nder(x) = v;  // dx/dt = v\n```".to_owned());
    }
    if text_is(word, "pre") {
        return Some("**pre(x)**\n\nThe value of x immediately before an event.\n\nUsed in when-clauses to access previous values.".to_owned());
    }
    if text_is(word, "time") {
        return Some("**time**\n\nBuilt-in variable representing simulation time.".to_owned());
    }
    if text_is(word, "equation") {
        return Some("**equation**\n\nSection containing equations that define the mathematical relationships.".to_owned());
    }
    if text_is(word, "algorithm") {
        return Some("**algorithm**\n\nSection containing sequential assignment statements.".to_owned());
    }
    if text_is(word, "connect") {
        return Some("**connect(a, b)**\n\nCreates a connection between connectors a and b.".to_owned());
    }
    if text_is(word, "when") {
        return Some("**when**\n\nEvent-triggered section. Equations inside are active only when condition becomes true.".to_owned());
    }
    if text_is(word, "if") {
        return Some("**if**\n\nConditional expression or statement.".to_owned());
    }
    if text_is(word, "for") {
        return Some("**for**\n\nLoop construct for iteration.".to_owned());
    }
    if text_is(word, "extends") {
        return Some("**extends**\n\nInheritance from a base class.".to_owned());
    }
    if text_is(word, "import") {
        return Some("**import**\n\nImports classes from other packages.".to_owned());
    }
    if text_is(word, "within") {
        return Some("**within**\n\nSpecifies the package this file belongs to.".to_owned());
    }
    if text_is(word, "annotation") {
        return Some("**annotation**\n\nMetadata for documentation, icons, experiments, etc.".to_owned());
    }
    if text_is(word, "sin") {
        return Some("**sin(x)**\n\nSine function. Returns the sine of x (in radians).".to_owned());
    }
    if text_is(word, "cos") {
        return Some("**cos(x)**\n\nCosine function. Returns the cosine of x (in radians).".to_owned());
    }
    if text_is(word, "tan") {
        return Some("**tan(x)**\n\nTangent function. Returns the tangent of x (in radians).".to_owned());
    }
    if text_is(word, "exp") {
        return Some("**exp(x)**\n\nExponential function. Returns e^x.".to_owned());
    }
    if text_is(word, "log") {
        return Some("**log(x)**\n\nNatural logarithm. Returns ln(x).".to_owned());
    }
    if text_is(word, "sqrt") {
        return Some("**sqrt(x)**\n\nSquare root. Returns √x.".to_owned());
    }
    if text_is(word, "abs") {
        return Some("**abs(x)**\n\nAbsolute value. Returns |x|.".to_owned());
    }
    if text_is(word, "min") {
        return Some("**min(a, b)**\n\nReturns the minimum of a and b.".to_owned());
    }
    if text_is(word, "max") {
        return Some("**max(a, b)**\n\nReturns the maximum of a and b.".to_owned());
    }
    None
}

/// The hover text of a keyword or predefined type, built-in operators aside.
pub open spec fn keyword_hover_text(word: Seq<char>) -> Option<Seq<char>> {
    if word == "model"@ {
        Some("**model**\n\nA model is a class that can contain equations and may be instantiated."@)
    } else if word == "class"@ {
        Some("**class**\n\nA general class definition. Models, connectors, and other specialized classes inherit from class."@)
    } else if word == "connector"@ {
        Some("**connector**\n\nA connector defines the interface for connections between components."@)
    } else if word == "package"@ {
        Some("**package**\n\nA package is a namespace for organizing classes and models."@)
    } else if word == "function"@ {
        Some("**function**\n\nA function is a class that computes outputs from inputs using algorithms."@)
    } else if word == "record"@ {
        Some("**record**\n\nA record is a class used as a data structure without equations."@)
    } else if word == "block"@ {
        Some("**block**\n\nA block is a class with fixed causality for inputs and outputs."@)
    } else if word == "type"@ {
        Some("**type**\n\nDefines a type alias or derived type."@)
    } else if word == "parameter"@ {
        Some("**parameter**\n\nA parameter is a variable that remains constant during simulation but can be changed between simulations."@)
    } else if word == "constant"@ {
        Some("**constant**\n\nA constant is a variable whose value cannot be changed."@)
    } else if word == "input"@ {
        Some("**input**\n\nDeclares an input connector variable."@)
    } else if word == "output"@ {
        Some("**output**\n\nDeclares an output connector variable."@)
    } else if word == "flow"@ {
        Some("**flow**\n\nDeclares a flow variable (summed to zero in connections)."@)
    } else if word == "stream"@ {
        Some("**stream**\n\nDeclares a stream variable for bidirectional flow."@)
    } else if word == "Real"@ {
        Some("**Real**\n\nFloating-point number type.\n\nAttributes: `unit`, `displayUnit`, `min`, `max`, `start`, `fixed`, `nominal`, `stateSelect`"@)
    } else if word == "Integer"@ {
        Some("**Integer**\n\nInteger number type.\n\nAttributes: `min`, `max`, `start`, `fixed`"@)
    } else if word == "Boolean"@ {
        Some("**Boolean**\n\nBoolean type with values `true` and `false`.\n\nAttributes: `start`, `fixed`"@)
    } else if word == "String"@ {
        Some("**String**\n\nString type for text.\n\nAttributes: `start`"@)
    } else if word == "time"@ {
        Some("**time**\n\nBuilt-in variable representing simulation time."@)
    } else if word == "equation"@ {
        Some("**equation**\n\nSection containing equations that define the mathematical relationships."@)
    } else if word == "algorithm"@ {
        Some("**algorithm**\n\nSection containing sequential assignment statements."@)
    } else if word == "when"@ {
        Some("**when**\n\nEvent-triggered section. Equations inside are active only when condition becomes true."@)
    } else if word == "if"@ {
        Some("**if**\n\nConditional expression or statement."@)
    } else if word == "for"@ {
        Some("**for**\n\nLoop construct for iteration."@)
    } else if word == "extends"@ {
        Some("**extends**\n\nInheritance from a base class."@)
    } else if word == "import"@ {
        Some("**import**\n\nImports classes from other packages."@)
    } else if word == "within"@ {
        Some("**within**\n\nSpecifies the package this file belongs to."@)
    } else if word == "annotation"@ {
        Some("**annotation**\n\nMetadata for documentation, icons, experiments, etc."@)
    } else {
        None
    }
}

/// The hover text of a keyword (see `keyword_hover_text`).
pub fn get_keyword_hover_info(word: &str) -> (r: Option<String>)
    ensures
        match r {
            Some(s) => keyword_hover_text(word@) == Some(s@),
            None => keyword_hover_text(word@) is None,
        },
{
    if text_is(word, "model") {
        return Some("**model**\n\nA model is a class that can contain equations and may be instantiated.".to_owned());
    }
    if text_is(word, "class") {
        return Some("**class**\n\nA general class definition. Models, connectors, and other specialized classes inherit from class.".to_owned());
    }
    if text_is(word, "connector") {
        return Some("**connector**\n\nA connector defines the interface for connections between components.".to_owned());
    }
    if text_is(word, "package") {
        return Some("**package**\n\nA package is a namespace for organizing classes and models.".to_owned());
    }
    if text_is(word, "function") {
        return Some("**function**\n\nA function is a class that computes outputs from inputs using algorithms.".to_owned());
    }
    if text_is(word, "record") {
        return Some("**record**\n\nA record is a class used as a data structure without equations.".to_owned());
    }
    if text_is(word, "block") {
        return Some("**block**\n\nA block is a class with fixed causality for inputs and outputs.".to_owned());
    }
    if text_is(word, "type") {
        return Some("**type**\n\nDefines a type alias or derived type.".to_owned());
    }
    if text_is(word, "parameter") {
        return Some("**parameter**\n\nA parameter is a variable that remains constant during simulation but can be changed between simulations.".to_owned());
    }
    if text_is(word, "constant") {
        return Some("**constant**\n\nA constant is a variable whose value cannot be changed.".to_owned());
    }
    if text_is(word, "input") {
        return Some("**input**\n\nDeclares an input connector variable.".to_owned());
    }
    if text_is(word, "output") {
        return Some("**output**\n\nDeclares an output connector variable.".to_owned());
    }
    if text_is(word, "flow") {
        return Some("**flow**\n\nDeclares a flow variable (summed to zero in connections).".to_owned());
    }
    if text_is(word, "stream") {
        return Some("**stream**\n\nDeclares a stream variable for bidirectional flow.".to_owned());
    }
    if text_is(word, "Real") {
        return Some("**Real**\n\nFloating-point number type.\n\nAttributes: `unit`, `displayUnit`, `min`, `max`, `start`, `fixed`, `nominal`, `stateSelect`".to_owned());
    }
    if text_is(word, "Integer") {
        return Some("**Integer**\n\nInteger number type.\n\nAttributes: `min`, `max`, `start`, `fixed`".to_owned());
    }
    if text_is(word, "Boolean") {
        return Some("**Boolean**\n\nBoolean type with values `true` and `false`.\n\nAttributes: `start`, `fixed`".to_owned());
    }
    if text_is(word, "String") {
        return Some("**String**\n\nString type for text.\n\nAttributes: `start`".to_owned());
    }
    if text_is(word, "time") {
        return Some("**time**\n\nBuilt-in variable representing simulation time.".to_owned());
    }
    if text_is(word, "equation") {
        return Some("**equation**\n\nSection containing equations that define the mathematical relationships.".to_owned());
    }
    if text_is(word, "algorithm") {
        return Some("**algorithm**\n\nSection containing sequential assignment statements.".to_owned());
    }
    if text_is(word, "when") {
        return Some("**when**\n\nEvent-triggered section. Equations inside are active only when condition becomes true.".to_owned());
    }
    if text_is(word, "if") {
        return Some("**if**\n\nConditional expression or statement.".to_owned());
    }
    if text_is(word, "for") {
        return Some("**for**\n\nLoop construct for iteration.".to_owned());
    }
    if text_is(word, "extends") {
        return Some("**extends**\n\nInheritance from a base class.".to_owned());
    }
    if text_is(word, "import") {
        return Some("**import**\n\nImports classes from other packages.".to_owned());
    }
    if text_is(word, "within") {
        return Some("**within**\n\nSpecifies the package this file belongs to.".to_owned());
    }
    if text_is(word, "annotation") {
        return Some("**annotation**\n\nMetadata for documentation, icons, experiments, etc.".to_owned());
    }
    None
}

// ---------------------------------------------------------------------------
// Hover texts of the symbols of a document
// ---------------------------------------------------------------------------

/// Texts joined with a separator between each two.
pub open spec fn joined(parts: Seq<Seq<char>>, sep: Seq<char>) -> Seq<char>
    decreases parts.len(),
{
    if parts.len() == 0 {
        seq![]
    } else if parts.len() == 1 {
        parts[0]
    } else {
        joined(parts.drop_last(), sep) + sep + parts.last()
    }
}

/// A text without the quotes at its start.
pub open spec fn drop_leading_quotes(s: Seq<char>) -> Seq<char>
    decreases s.len(),
{
    if s.len() > 0 && s[0] == '"' {
        drop_leading_quotes(s.drop_first())
    } else {
        s
    }
}

/// A text without the quotes at its end.
pub open spec fn drop_trailing_quotes(s: Seq<char>) -> Seq<char>
    decreases s.len(),
{
    if s.len() > 0 && s.last() == '"' {
        drop_trailing_quotes(s.drop_last())
    } else {
        s
    }
}

/// A text without the quotes at either end.
pub open spec fn trim_quotes(s: Seq<char>) -> Seq<char> {
    drop_trailing_quotes(drop_leading_quotes(s))
}

/// The texts of description tokens, unquoted.
pub open spec fn description_parts(ts: Seq<Token>) -> Seq<Seq<char>> {
    ts.map_values(|t: Token| trim_quotes(t.text@))
}

/// Dimensions in decimal.
pub open spec fn dim_parts(ds: Seq<usize>) -> Seq<Seq<char>> {
    ds.map_values(|d: usize| decimal(d as nat))
}

/// What a component's variability adds to its hover text.
pub open spec fn variability_note(v: Variability) -> Seq<char> {
    match v {
        Variability::Parameter(_) => " (parameter)"@,
        Variability::Constant(_) => " (constant)"@,
        Variability::Discrete(_) => " (discrete)"@,
        _ => seq![],
    }
}

/// What a component's causality adds to its hover text.
pub open spec fn causality_note(c: Causality) -> Seq<char> {
    match c {
        Causality::Input(_) => " [input]"@,
        Causality::Output(_) => " [output]"@,
        _ => seq![],
    }
}

/// The hover text of a component: name and type, the dimensions written as
/// integer literals, variability, causality, and its description.
pub open spec fn component_hover_text(c: Component) -> Seq<char> {
    let dims = literal_dims(c.shape@);
    "**"@ + c.name@ + "**: "@ + name_text(c.type_path) + (if dims.len() > 0 {
        "["@ + joined(dim_parts(dims), ", "@) + "]"@
    } else {
        seq![]
    }) + variability_note(c.variability) + causality_note(c.causality) + (if c.description@.len() > 0 {
        "\n\n"@ + joined(description_parts(c.description@), " "@)
    } else {
        seq![]
    })
}

/// `name: type` for each component of the given causality, in order.
pub open spec fn signature_parts(cs: Seq<Component>, inputs: bool) -> Seq<Seq<char>>
    decreases cs.len(),
{
    if cs.len() == 0 {
        seq![]
    } else {
        let c = cs.last();
        let wanted = if inputs {
            c.causality is Input
        } else {
            c.causality is Output
        };
        signature_parts(cs.drop_last(), inputs) + if wanted {
            seq![c.name@ + ": "@ + name_text(c.type_path)]
        } else {
            seq![]
        }
    }
}

/// The hover text of a class: its kind and name and, for a function, its
/// signature from its inputs and outputs.
pub open spec fn class_hover_text(c: ClassDefinition, name: Seq<char>) -> Seq<char> {
    let outs = signature_parts(c.components@, false);
    "**"@ + class_type_name(c.class_type) + "** "@ + name + if c.class_type == ClassType::Function {
        "\n\n```modelica\nfunction "@ + name + "("@ + joined(signature_parts(c.components@, true), ", "@) + ")"@ + (
        if outs.len() > 0 {
            " -> ("@ + joined(outs, ", "@) + ")"@
        } else {
            seq![]
        }) + "\n```"@
    } else {
        seq![]
    }
}

/// The hover text of a symbol of a document at a position (from 0): what the
/// name resolves to there (see `resolve_spec`), with where a component is
/// declared or inherited from; else a class nested in a top-level class.
pub open spec fn ast_hover_text(d: StoredDefinition, word: Seq<char>, line: u32, col: u32) -> Option<Seq<char>> {
    match resolve_spec(d, word, (line + 1) as u32, (col + 1) as u32) {
        Some(Resolution::Comp(comp, def_in, via)) => Some(component_hover_text(comp) + match via {
            Some(b) => "\n\n*Inherited from `"@ + b + "`*"@,
            None => "\n\n*Defined in `"@ + def_in.name.text@ + "`*"@,
        }),
        Some(Resolution::Class(c)) => Some(class_hover_text(c, word)),
        None => match find_named(d.class_list@, word) {
            Some(c) => Some(class_hover_text(c, word)),
            None => match nested_named(d.class_list@, word) {
                Some(c) => Some(class_hover_text(c, word)),
                None => None,
            },
        },
    }
}

/// Appends texts joined with a separator.
pub(crate) fn write_joined(out: &mut Vec<char>, parts: &Vec<Vec<char>>, sep: &str)
    ensures
        final(out)@ == old(out)@ + joined(views(parts@), sep@),
{
    let ghost o0 = out@;
    let mut i: usize = 0;
    proof {
        assert(views(parts@).take(0) =~= Seq::<Seq<char>>::empty());
        assert(o0 + joined(views(parts@).take(0), sep@) =~= o0);
    }
    while i < parts.len()
        invariant
            i <= parts@.len(),
            out@ == o0 + joined(views(parts@).take(i as int), sep@),
        decreases parts.len() - i,
    {
        let ghost t = views(parts@).take(i as int + 1);
        proof {
            assert(t.drop_last() =~= views(parts@).take(i as int));
            assert(t.last() == parts@[i as int]@);
        }
        if i > 0 {
            crate::printer::append_str(out, sep);
        }
        crate::printer::append_chars(out, parts[i].as_slice());
        proof {
            if i == 0 {
                assert(t.len() == 1);
                assert(out@ =~= o0 + joined(t, sep@));
            } else {
                assert(out@ =~= o0 + joined(t, sep@));
            }
        }
        i = i + 1;
    }
    assert(views(parts@).take(i as int) =~= views(parts@));
}

proof fn lemma_leading_step(s: Seq<char>, lo: int)
    requires
        0 <= lo < s.len(),
        s[lo] == '"',
    ensures
        drop_leading_quotes(s.subrange(lo, s.len() as int)) == drop_leading_quotes(s.subrange(lo + 1, s.len() as int)),
{
    assert(s.subrange(lo, s.len() as int).drop_first() =~= s.subrange(lo + 1, s.len() as int));
}

proof fn lemma_trailing_step(s: Seq<char>, hi: int)
    requires
        0 < hi <= s.len(),
        s[hi - 1] == '"',
    ensures
        drop_trailing_quotes(s.subrange(0, hi)) == drop_trailing_quotes(s.subrange(0, hi - 1)),
{
    assert(s.subrange(0, hi).drop_last() =~= s.subrange(0, hi - 1));
}

/// A text without the quotes at either end (see `trim_quotes`).
fn trimmed_quotes(s: &str) -> (r: Vec<char>)
    ensures
        r@ == trim_quotes(s@),
{
    let cs = crate::text::str_to_chars(s);
    let n = cs.len();
    let mut lo: usize = 0;
    proof {
        assert(cs@.subrange(0, n as int) =~= cs@);
    }
    while lo < n && cs[lo] == '"'
        invariant
            lo <= n,
            n == cs@.len(),
            drop_leading_quotes(cs@) == drop_leading_quotes(cs@.subrange(lo as int, n as int)),
        decreases n - lo,
    {
        proof {
            lemma_leading_step(cs@, lo as int);
        }
        lo = lo + 1;
    }
    let ghost u = cs@.subrange(lo as int, n as int);
    assert(drop_leading_quotes(u) == u);
    let mut hi: usize = n;
    proof {
        assert(u.subrange(0, (hi - lo) as int) =~= u);
    }
    while hi > lo && cs[hi - 1] == '"'
        invariant
            lo <= hi <= n,
            n == cs@.len(),
            u == cs@.subrange(lo as int, n as int),
            drop_trailing_quotes(u) == drop_trailing_quotes(u.subrange(0, (hi - lo) as int)),
        decreases hi,
    {
        proof {
            lemma_trailing_step(u, (hi - lo) as int);
        }
        hi = hi - 1;
    }
    let ghost w = u.subrange(0, (hi - lo) as int);
    assert(drop_trailing_quotes(w) == w);
    let r = crate::lexer::slice_chars(&cs, lo, hi);
    assert(r@ =~= w);
    r
}

/// The dimensions written as integer literals, in decimal.
pub(crate) fn dim_texts(ds: &Vec<usize>) -> (r: Vec<Vec<char>>)
    ensures
        views(r@) == dim_parts(ds@),
{
    let mut parts: Vec<Vec<char>> = Vec::new();
    let mut i: usize = 0;
    while i < ds.len()
        invariant
            i <= ds@.len(),
            parts@.len() == i,
            views(parts@) == dim_parts(ds@).take(i as int),
        decreases ds.len() - i,
    {
        let mut d: Vec<char> = Vec::new();
        write_decimal(&mut d, ds[i]);
        let ghost before = views(parts@);
        parts.push(d);
        proof {
            assert(views(parts@) =~= before.push(decimal(ds@[i as int] as nat)));
            assert(views(parts@) =~= dim_parts(ds@).take(i as int + 1));
        }
        i = i + 1;
    }
    assert(dim_parts(ds@).take(i as int) =~= dim_parts(ds@));
    parts
}

/// The texts of description tokens, unquoted.
pub(crate) fn description_texts(ts: &Vec<Token>) -> (r: Vec<Vec<char>>)
    ensures
        views(r@) == description_parts(ts@),
{
    let mut parts: Vec<Vec<char>> = Vec::new();
    let mut i: usize = 0;
    while i < ts.len()
        invariant
            i <= ts@.len(),
            parts@.len() == i,
            views(parts@) == description_parts(ts@).take(i as int),
        decreases ts.len() - i,
    {
        let t = trimmed_quotes(ts[i].text.as_str());
        let ghost before = views(parts@);
        parts.push(t);
        proof {
            assert(views(parts@) =~= before.push(trim_quotes(ts@[i as int].text@)));
            assert(views(parts@) =~= description_parts(ts@).take(i as int + 1));
        }
        i = i + 1;
    }
    assert(description_parts(ts@).take(i as int) =~= description_parts(ts@));
    parts
}

/// The hover text of a component (see `component_hover_text`).
pub fn format_component_hover(comp: &Component) -> (r: String)
    ensures
        r@ == component_hover_text(*comp),
{
    let mut out: Vec<char> = Vec::new();
    crate::printer::append_str(&mut out, "**");
    crate::printer::append_str(&mut out, comp.name.as_str());
    crate::printer::append_str(&mut out, "**: ");
    write_name(&mut out, &comp.type_path);
    let ghost o1 = out@;
    let dims = literal_dimensions(&comp.shape);
    if dims.len() > 0 {
        let parts = dim_texts(&dims);
        crate::printer::append_str(&mut out, "[");
        write_joined(&mut out, &parts, ", ");
        crate::printer::append_str(&mut out, "]");
    }
    let ghost o2 = out@;
    assert(o2 =~= o1 + (if literal_dims(comp.shape@).len() > 0 {
        "["@ + joined(dim_parts(literal_dims(comp.shape@)), ", "@) + "]"@
    } else {
        seq![]
    }));
    match &comp.variability {
        Variability::Parameter(_) => crate::printer::append_str(&mut out, " (parameter)"),
        Variability::Constant(_) => crate::printer::append_str(&mut out, " (constant)"),
        Variability::Discrete(_) => crate::printer::append_str(&mut out, " (discrete)"),
        _ => {},
    }
    assert(out@ =~= o2 + variability_note(comp.variability));
    let ghost o3 = out@;
    match &comp.causality {
        Causality::Input(_) => crate::printer::append_str(&mut out, " [input]"),
        Causality::Output(_) => crate::printer::append_str(&mut out, " [output]"),
        _ => {},
    }
    assert(out@ =~= o3 + causality_note(comp.causality));
    let ghost o4 = out@;
    if comp.description.len() > 0 {
        let parts = description_texts(&comp.description);
        crate::printer::append_str(&mut out, "\n\n");
        write_joined(&mut out, &parts, " ");
    }
    assert(out@ =~= o4 + (if comp.description@.len() > 0 {
        "\n\n"@ + joined(description_parts(comp.description@), " "@)
    } else {
        seq![]
    }));
    proof {
        assert(out@ =~= component_hover_text(*comp));
    }
    crate::text::chars_to_string(&out)
}

/// `name: type` for each component of the given causality (see `signature_parts`).
fn signature_of(cs: &Vec<Component>, inputs: bool) -> (r: Vec<Vec<char>>)
    ensures
        views(r@) == signature_parts(cs@, inputs),
{
    let mut parts: Vec<Vec<char>> = Vec::new();
    let mut i: usize = 0;
    while i < cs.len()
        invariant
            i <= cs@.len(),
            views(parts@) == signature_parts(cs@.take(i as int), inputs),
        decreases cs.len() - i,
    {
        proof {
            let t = cs@.take(i as int + 1);
            assert(t.drop_last() =~= cs@.take(i as int));
            assert(t.last() == cs@[i as int]);
        }
        let wanted = match &cs[i].causality {
            Causality::Input(_) => inputs,
            Causality::Output(_) => !inputs,
            _ => false,
        };
        if wanted {
            let mut p: Vec<char> = Vec::new();
            crate::printer::append_str(&mut p, cs[i].name.as_str());
            crate::printer::append_str(&mut p, ": ");
            write_name(&mut p, &cs[i].type_path);
            parts.push(p);
        }
        proof {
            assert(views(parts@) =~= signature_parts(cs@.take(i as int + 1), inputs));
        }
        i = i + 1;
    }
    assert(cs@.take(i as int) =~= cs@);
    parts
}

/// The hover text of a class (see `class_hover_text`).
pub fn format_class_hover(class_def: &ClassDefinition, name: &str) -> (r: String)
    ensures
        r@ == class_hover_text(*class_def, name@),
{
    let mut out: Vec<char> = Vec::new();
    crate::printer::append_str(&mut out, "**");
    crate::printer::append_str(&mut out, format_class_type(&class_def.class_type));
    crate::printer::append_str(&mut out, "** ");
    crate::printer::append_str(&mut out, name);
    if class_def.class_type == ClassType::Function {
        let inputs = signature_of(&class_def.components, true);
        let outputs = signature_of(&class_def.components, false);
        crate::printer::append_str(&mut out, "\n\n```modelica\nfunction ");
        crate::printer::append_str(&mut out, name);
        crate::printer::append_str(&mut out, "(");
        write_joined(&mut out, &inputs, ", ");
        crate::printer::append_str(&mut out, ")");
        if outputs.len() > 0 {
            crate::printer::append_str(&mut out, " -> (");
            write_joined(&mut out, &outputs, ", ");
            crate::printer::append_str(&mut out, ")");
        }
        crate::printer::append_str(&mut out, "\n```");
    }
    proof {
        assert(out@ =~= class_hover_text(*class_def, name@));
    }
    crate::text::chars_to_string(&out)
}

/// The hover text of a symbol of a document at a position counted from 0
/// (see `ast_hover_text`).
pub fn get_ast_hover_info(ast: &StoredDefinition, word: &str, line: u32, character: u32) -> (r: Option<String>)
    requires
        line < u32::MAX,
        character < u32::MAX,
    ensures
        match r {
            Some(s) => ast_hover_text(*ast, word@, line, character) == Some(s@),
            None => ast_hover_text(*ast, word@, line, character) is None,
        },
{
    let resolver = ScopeResolver::new(ast);
    match resolver.resolve_0indexed(word, line, character) {
        Some(ResolvedSymbol::Component { component, defined_in, inherited_via }) => {
            let mut out: Vec<char> = Vec::new();
            let head = format_component_hover(component);
            crate::printer::append_str(&mut out, head.as_str());
            match inherited_via {
                Some(b) => {
                    crate::printer::append_str(&mut out, "\n\n*Inherited from `");
                    crate::printer::append_str(&mut out, b.as_str());
                    crate::printer::append_str(&mut out, "`*");
                },
                None => {
                    crate::printer::append_str(&mut out, "\n\n*Defined in `");
                    crate::printer::append_str(&mut out, defined_in.name.text.as_str());
                    crate::printer::append_str(&mut out, "`*");
                },
            }
            return Some(crate::text::chars_to_string(&out));
        },
        Some(ResolvedSymbol::Class(c)) => {
            return Some(format_class_hover(c, word));
        },
        None => {},
    }
    let w = word.to_owned();
    match find_top_class(&ast.class_list, &w) {
        Some(c) => {
            return Some(format_class_hover(c, word));
        },
        None => {},
    }
    match find_nested_class(&ast.class_list, &w) {
        Some(c) => Some(format_class_hover(c, word)),
        None => None,
    }
}

} // verus!
