//! Renders template text against a context.
//!
//! Text is copied; `$path` writes the string at `path`; `$if` renders its body
//! when the boolean at its path (`false` when missing or not a boolean) differs
//! from its negation flag; `$for name in path` renders its body once per element
//! of the list at `path`, with `name` bound to the element. Bindings made by a
//! loop are seen only inside its body.
use vstd::prelude::*;
use vstd::string::*;

use crate::context::{
    Context, GetContents, Object, Value, ValueView, descend, descend_from, lemma_views_of,
    lookup_path, map_get, view_of_ref, views_of,
};
use crate::path::{lemma_segments_nonempty, path_segments, split_path, texts_of};
use crate::tokenizer::{Token, TokenView, TokenizerIter, item_view, lemma_step, step};
use crate::tokenizer::Error as SyntaxError;
use crate::text::{Stop, lemma_scan, scan};

verus! {

/// How deeply blocks may nest unless a renderer is told otherwise.
pub const DEFAULT_MAX_DEPTH: usize = 128;

/// Why a render failed.
#[derive(Debug)]
pub enum Error {
    /// A variable that names no string, or a loop over something that is not a list.
    VariableNotFound(String),
    /// The template is malformed.
    Parse(SyntaxError),
    /// Blocks nest deeper than the renderer allows.
    DepthExceeded,
    /// The rendered text could not be written out.
    Io(String),
}

/// An error with its text as a sequence.
pub enum ErrorView {
    VariableNotFound(Seq<char>),
    Parse(SyntaxError),
    DepthExceeded,
    Io(Seq<char>),
}

impl View for Error {
    type V = ErrorView;

    open spec fn view(&self) -> ErrorView {
        match self {
            Error::VariableNotFound(p) => ErrorView::VariableNotFound(p@),
            Error::Parse(e) => ErrorView::Parse(*e),
            Error::DepthExceeded => ErrorView::DepthExceeded,
            Error::Io(m) => ErrorView::Io(m@),
        }
    }
}

/// `x` followed by the output of `r`, or the error of `r`.
pub open spec fn prepend(x: Seq<char>, r: Result<Seq<char>, ErrorView>) -> Result<Seq<char>, ErrorView> {
    match r {
        Ok(o) => Ok(x + o),
        Err(e) => Err(e),
    }
}

pub proof fn lemma_prepend_assoc(a: Seq<char>, b: Seq<char>, r: Result<Seq<char>, ErrorView>)
    ensures
        prepend(a, prepend(b, r)) == prepend(a + b, r),
{
    if let Ok(o) = r {
        assert(a + (b + o) =~= (a + b) + o);
    }
}

pub proof fn lemma_prepend_empty(r: Result<Seq<char>, ErrorView>)
    ensures
        prepend(Seq::empty(), r) == r,
{
    if let Ok(o) = r {
        assert(Seq::<char>::empty() + o =~= o);
    }
}

pub proof fn lemma_prefix_trans(a: Seq<char>, b: Seq<char>, c: Seq<char>)
    requires
        a.is_prefix_of(b),
        b.is_prefix_of(c),
    ensures
        a.is_prefix_of(c),
{
    assert(c.subrange(0, a.len() as int) =~= b.subrange(0, a.len() as int));
}

/// The output of the tokens of `s` from index `p` on, with the bindings `m` and
/// `depth` more levels of blocks allowed.
pub open spec fn render_from(m: Map<Seq<char>, ValueView>, s: Seq<char>, p: int, depth: nat) -> Result<
    Seq<char>,
    ErrorView,
>
    decreases s.len() - p, 1int, 0int,
{
    proof {
        lemma_step(s, p);
    }
    match step(s, p) {
        None => Ok(Seq::empty()),
        Some((Err(e), _)) => Err(ErrorView::Parse(e)),
        Some((Ok(tok), np)) => {
            let head = match tok {
                TokenView::Text(t) => Ok(t),
                TokenView::Variable(path) => match lookup_path(m, path) {
                    Some(ValueView::Text(v)) => Ok(v),
                    _ => Err(ErrorView::VariableNotFound(path)),
                },
                TokenView::If { not, variable, true_block, false_block } => {
                    let holds = lookup_path(m, variable) == Some(ValueView::Bool(true));
                    let body = if holds != not {
                        true_block
                    } else {
                        false_block
                    };
                    if depth == 0 {
                        Err(ErrorView::DepthExceeded)
                    } else {
                        render_from(m, body, 0, (depth - 1) as nat)
                    }
                },
                TokenView::For { name, variable, block } => match lookup_path(m, variable) {
                    Some(ValueView::List(items)) => render_items(m, name, items, block, depth),
                    _ => Err(ErrorView::VariableNotFound(variable)),
                },
            };
            match head {
                Err(e) => Err(e),
                Ok(h) => prepend(h, render_from(m, s, np, depth)),
            }
        },
    }
}

/// The output of `block` once per element of `items`, in order, each time
/// with `name` bound to the element.
pub open spec fn render_items(
    m: Map<Seq<char>, ValueView>,
    name: Seq<char>,
    items: Seq<ValueView>,
    block: Seq<char>,
    depth: nat,
) -> Result<Seq<char>, ErrorView>
    decreases block.len() + 1, 0int, items.len(),
{
    if items.len() == 0 {
        Ok(Seq::empty())
    } else {
        let first = if depth == 0 {
            Err(ErrorView::DepthExceeded)
        } else {
            render_from(m.insert(name, items[0]), block, 0, (depth - 1) as nat)
        };
        match first {
            Err(e) => Err(e),
            Ok(o) => prepend(o, render_items(m, name, items.drop_first(), block, depth)),
        }
    }
}

/// The output of the template `t` with the bindings `m` and `depth` levels of blocks allowed.
pub open spec fn render_text(m: Map<Seq<char>, ValueView>, t: Seq<char>, depth: nat) -> Result<
    Seq<char>,
    ErrorView,
> {
    render_from(m, t, 0, depth)
}

/// The bindings seen inside nested loops: those of `root`, then each loop
/// binding in order, a later one hiding an earlier one of the same name.
pub open spec fn scope_map(root: Map<Seq<char>, ValueView>, binds: Seq<(&str, &Value)>) -> Map<
    Seq<char>,
    ValueView,
>
    decreases binds.len(),
{
    if binds.len() == 0 {
        root
    } else {
        scope_map(root, binds.drop_last()).insert(binds.last().0@, binds.last().1@)
    }
}

fn same_text(a: &str, b: &str) -> (r: bool)
    ensures
        r == (a@ == b@),
{
    let x = a.to_owned();
    let y = b.to_owned();
    x == y
}

/// The value that `path` names in the scope of `root` and `binds`.
fn lookup_scope<'s, 'c>(root: &'c Object, binds: &Vec<(&'s str, &'c Value)>, path: &str) -> (r:
    Option<&'c Value>)
    ensures
        view_of_ref(r) == lookup_path(scope_map(root@, binds@), path@),
{
    let segs = split_path(path);
    let ghost rest = path_segments(path@).drop_first();
    proof {
        lemma_segments_nonempty(path@, 0);
        assert(texts_of(segs@)[0] == segs@[0]@);
        assert(texts_of(segs@).subrange(1, segs@.len() as int) =~= rest);
    }
    let first = segs[0];
    let mut i: usize = binds.len();
    assert(binds@.subrange(0, i as int) =~= binds@);
    while i > 0
        invariant
            i <= binds@.len(),
            segs@.len() >= 1,
            first == segs@[0],
            path_segments(path@)[0] == first@,
            texts_of(segs@).subrange(1, segs@.len() as int) == rest,
            rest == path_segments(path@).drop_first(),
            map_get(scope_map(root@, binds@), first@) == map_get(
                scope_map(root@, binds@.subrange(0, i as int)),
                first@,
            ),
        decreases i,
    {
        let ghost prefix = binds@.subrange(0, i as int);
        assert(prefix.drop_last() =~= binds@.subrange(0, i - 1));
        if same_text(binds[i - 1].0, first) {
            return descend_from(binds[i - 1].1, &segs, 1);
        }
        i -= 1;
    }
    assert(binds@.subrange(0, 0) =~= Seq::<(&str, &Value)>::empty());
    match root.get(first) {
        Some(v) => descend_from(v, &segs, 1),
        None => None,
    }
}

/// Renders `text` in the scope of `root` and `binds`, appending to `out`.
fn render_block<'s, 'c>(
    root: &'c Object,
    binds: &mut Vec<(&'s str, &'c Value)>,
    text: &'s str,
    depth: usize,
    out: &mut String,
) -> (r: Result<(), Error>)
    ensures
        final(binds)@ == old(binds)@,
        old(out)@.is_prefix_of(final(out)@),
        match render_text(scope_map(root@, old(binds)@), text@, depth as nat) {
            Ok(o) => r is Ok && final(out)@ == old(out)@ + o,
            Err(e) => r matches Err(x) && x@ == e,
        },
    decreases text@.len(), 1int,
{
    let ghost m = scope_map(root@, binds@);
    let ghost start = out@;
    let mut tokens = TokenizerIter::new(text);
    proof {
        assert(out@.subrange(0, start.len() as int) =~= start);
        assert(out@.subrange(start.len() as int, out@.len() as int) =~= Seq::<char>::empty());
        lemma_prepend_empty(render_text(m, text@, depth as nat));
    }
    loop
        invariant
            tokens.text() == text@,
            0 <= tokens.position() <= text@.len(),
            binds@ == old(binds)@,
            m == scope_map(root@, binds@),
            start == old(out)@,
            out@.len() >= start.len(),
            out@.subrange(0, start.len() as int) == start,
            render_text(m, text@, depth as nat) == prepend(
                out@.subrange(start.len() as int, out@.len() as int),
                render_from(m, text@, tokens.position(), depth as nat),
            ),
        decreases text@.len() - tokens.position(),
    {
        let ghost p = tokens.position();
        let ghost before = out@;
        proof {
            lemma_step(text@, p);
        }
        let item = tokens.next();
        match item {
            None => {
                assert(step(text@, p) is None);
                assert(render_from(m, text@, p, depth as nat) == Ok::<Seq<char>, ErrorView>(Seq::<char>::empty()));
                assert(out@ =~= start + out@.subrange(start.len() as int, out@.len() as int));
                assert(out@.subrange(start.len() as int, out@.len() as int) + Seq::<char>::empty()
                    =~= out@.subrange(start.len() as int, out@.len() as int));
                return Ok(());
            },
            Some(Err(e)) => {
                return Err(Error::Parse(e));
            },
            Some(Ok(token)) => {
                let ghost piece: Seq<char>;
                match token {
                    Token::Text(t) => {
                        out.append(t);
                        proof {
                            piece = t@;
                        }
                    },
                    Token::Variable(path) => {
                        match lookup_scope(root, binds, path) {
                            Some(v) => match v.as_string() {
                                Some(st) => {
                                    out.append(st.as_str());
                                    proof {
                                        piece = st@;
                                    }
                                },
                                None => {
                                    return Err(Error::VariableNotFound(path.to_owned()));
                                },
                            },
                            None => {
                                return Err(Error::VariableNotFound(path.to_owned()));
                            },
                        }
                    },
                    Token::If { not, variable, true_block, false_block } => {
                        let holds = match lookup_scope(root, binds, variable) {
                            Some(v) => v.as_bool(),
                            None => false,
                        };
                        let body = if holds != not {
                            true_block
                        } else {
                            false_block
                        };
                        if depth == 0 {
                            return Err(Error::DepthExceeded);
                        }
                        let res = render_block(root, binds, body, depth - 1, out);
                        if let Err(e) = res {
                            proof {
                                lemma_prefix_trans(start, before, out@);
                            }
                            return Err(e);
                        }
                        proof {
                            piece = render_text(m, body@, (depth - 1) as nat)->Ok_0;
                        }
                    },
                    Token::For { name, variable, block } => {
                        let items = match lookup_scope(root, binds, variable) {
                            Some(v) => match v.as_list() {
                                Some(l) => l,
                                None => {
                                    return Err(Error::VariableNotFound(variable.to_owned()));
                                },
                            },
                            None => {
                                return Err(Error::VariableNotFound(variable.to_owned()));
                            },
                        };
                        let res = render_each(root, binds, name, items, block, depth, out);
                        if let Err(e) = res {
                            proof {
                                lemma_prefix_trans(start, before, out@);
                            }
                            return Err(e);
                        }
                        proof {
                            piece = render_items(m, name@, views_of(items@), block@, depth as nat)->Ok_0;
                        }
                    },
                }
                proof {
                    let produced = out@.subrange(before.len() as int, out@.len() as int);
                    assert(out@ == before + piece);
                    assert(produced =~= piece);
                    assert(out@ =~= before + produced);
                    assert(out@.subrange(0, start.len() as int) =~= start);
                    assert(out@.subrange(start.len() as int, out@.len() as int) =~= before.subrange(
                        start.len() as int,
                        before.len() as int,
                    ) + produced);
                    assert(render_from(m, text@, p, depth as nat) == prepend(
                        produced,
                        render_from(m, text@, tokens.position(), depth as nat),
                    ));
                    lemma_prepend_assoc(
                        before.subrange(start.len() as int, before.len() as int),
                        produced,
                        render_from(m, text@, tokens.position(), depth as nat),
                    );
                }
            },
        }
    }
}

/// Renders `block` once per element of `items`, with `name` bound to it.
fn render_each<'s, 'c>(
    root: &'c Object,
    binds: &mut Vec<(&'s str, &'c Value)>,
    name: &'s str,
    items: &'c Vec<Value>,
    block: &'s str,
    depth: usize,
    out: &mut String,
) -> (r: Result<(), Error>)
    ensures
        final(binds)@ == old(binds)@,
        old(out)@.is_prefix_of(final(out)@),
        match render_items(scope_map(root@, old(binds)@), name@, views_of(items@), block@, depth as nat) {
            Ok(o) => r is Ok && final(out)@ == old(out)@ + o,
            Err(e) => r matches Err(x) && x@ == e,
        },
    decreases block@.len() + 1, 0int,
{
    let ghost m = scope_map(root@, binds@);
    let ghost start = out@;
    let ghost vs = views_of(items@);
    let mut j: usize = 0;
    proof {
        lemma_views_of(items@);
        assert(out@.subrange(0, start.len() as int) =~= start);
        assert(out@.subrange(start.len() as int, out@.len() as int) =~= Seq::<char>::empty());
        assert(vs.subrange(0, vs.len() as int) =~= vs);
        lemma_prepend_empty(render_items(m, name@, vs, block@, depth as nat));
    }
    while j < items.len()
        invariant
            j <= items@.len(),
            vs == views_of(items@),
            vs.len() == items@.len(),
            forall|k: int| 0 <= k < items@.len() ==> #[trigger] vs[k] == items@[k]@,
            binds@ == old(binds)@,
            m == scope_map(root@, binds@),
            start == old(out)@,
            out@.len() >= start.len(),
            out@.subrange(0, start.len() as int) == start,
            render_items(m, name@, vs, block@, depth as nat) == prepend(
                out@.subrange(start.len() as int, out@.len() as int),
                render_items(m, name@, vs.subrange(j as int, vs.len() as int), block@, depth as nat),
            ),
        decreases items.len() - j,
    {
        let ghost rest = vs.subrange(j as int, vs.len() as int);
        assert(rest[0] == items@[j as int]@);
        assert(rest.drop_first() =~= vs.subrange(j + 1, vs.len() as int));
        if depth == 0 {
            return Err(Error::DepthExceeded);
        }
        let ghost before = out@;
        let ghost saved = binds@;
        binds.push((name, &items[j]));
        proof {
            assert(binds@.drop_last() =~= saved);
            assert(scope_map(root@, binds@) == m.insert(name@, rest[0]));
        }
        let res = render_block(root, binds, block, depth - 1, out);
        binds.pop();
        proof {
            assert(binds@ =~= saved);
        }
        if let Err(e) = res {
            proof {
                lemma_prefix_trans(start, before, out@);
            }
            return Err(e);
        }
        proof {
            let piece = render_text(m.insert(name@, rest[0]), block@, (depth - 1) as nat)->Ok_0;
            let produced = out@.subrange(before.len() as int, out@.len() as int);
            assert(out@ == before + piece);
            assert(produced =~= piece);
            assert(out@ =~= before + produced);
            assert(out@.subrange(0, start.len() as int) =~= start);
            assert(out@.subrange(start.len() as int, out@.len() as int) =~= before.subrange(
                start.len() as int,
                before.len() as int,
            ) + produced);
            let r0 = render_items(m, name@, vs.subrange(j + 1, vs.len() as int), block@, depth as nat);
            assert(render_items(m, name@, rest, block@, depth as nat) == prepend(produced, r0));
            lemma_prepend_assoc(before.subrange(start.len() as int, before.len() as int), produced, r0);
        }
        j += 1;
    }
    proof {
        assert(vs.subrange(j as int, vs.len() as int) =~= Seq::<ValueView>::empty());
        assert(out@ =~= start + out@.subrange(start.len() as int, out@.len() as int));
    }
    Ok(())
}

/// Renders one template against one context.
#[derive(Debug)]
pub struct Renderer<'a> {
    context: Context,
    source: &'a str,
    max_depth: usize,
}

impl<'a> Renderer<'a> {
    /// The bindings the template is rendered with.
    pub closed spec fn bindings(&self) -> Map<Seq<char>, ValueView> {
        self.context@
    }

    /// The template text.
    pub closed spec fn template(&self) -> Seq<char> {
        self.source@
    }

    /// How many levels of blocks may be entered.
    pub closed spec fn depth_limit(&self) -> nat {
        self.max_depth as nat
    }

    /// A renderer of `source` against `context`, allowing `DEFAULT_MAX_DEPTH` levels of blocks.
    pub fn new(context: Context, source: &'a str) -> (r: Renderer<'a>)
        ensures
            r.bindings() == context@,
            r.template() == source@,
            r.depth_limit() == DEFAULT_MAX_DEPTH,
    {
        Renderer { context, source, max_depth: DEFAULT_MAX_DEPTH }
    }

    /// The same renderer, allowing `max_depth` levels of blocks.
    pub fn with_max_depth(self, max_depth: usize) -> (r: Renderer<'a>)
        ensures
            r.bindings() == self.bindings(),
            r.template() == self.template(),
            r.depth_limit() == max_depth,
    {
        Renderer { context: self.context, source: self.source, max_depth }
    }

    /// Appends the rendered template to `writer`. On an error, `writer` may
    /// already hold part of the output, after what it held before.
    pub fn render(&self, writer: &mut String) -> (r: Result<(), Error>)
        ensures
            old(writer)@.is_prefix_of(final(writer)@),
            match render_text(self.bindings(), self.template(), self.depth_limit()) {
                Ok(o) => r is Ok && final(writer)@ == old(writer)@ + o,
                Err(e) => r matches Err(x) && x@ == e,
            },
    {
        let mut binds: Vec<(&str, &Value)> = Vec::new();
        render_block(self.context.contents(), &mut binds, self.source, self.max_depth, writer)
    }
}

/// A template without `$` renders to itself, whatever the bindings and the depth allowed.
pub proof fn lemma_plain_text_renders_to_itself(m: Map<Seq<char>, ValueView>, t: Seq<char>, depth: nat)
    requires
        !t.contains('$'),
    ensures
        render_text(m, t, depth) == Ok::<Seq<char>, ErrorView>(t),
{
    if t.len() > 0 {
        lemma_scan(t, 0, Stop::Dollar);
        let q = scan(t, 0, Stop::Dollar);
        if q < t.len() {
            assert(t.contains(t[q]));
        }
        if t[0] == '$' {
            assert(t.contains(t[0]));
        }
        assert(t.subrange(0, t.len() as int) =~= t);
        assert(step(t, 0) == Some((Ok::<TokenView, SyntaxError>(TokenView::Text(t)), t.len() as int)));
        assert(render_from(m, t, t.len() as int, depth) == Ok::<Seq<char>, ErrorView>(Seq::<char>::empty()));
        assert(t + Seq::<char>::empty() =~= t);
    } else {
        assert(t =~= Seq::<char>::empty());
    }
}

/// Rendering is a function of the bindings, the template and the depth allowed:
/// two contexts with the same bindings, such as a context and its clone,
/// render a template alike, to the same text or the same error.
pub proof fn lemma_render_deterministic(a: Context, b: Context, t: Seq<char>, depth: nat)
    requires
        a@ == b@,
    ensures
        render_text(a@, t, depth) == render_text(b@, t, depth),
{
}

} // verus!
