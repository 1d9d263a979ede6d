use crate::tokens::{
    enclosed, joined, mark, views, word, Delimiter, Ident, IdentView, Token, TokenView,
};
use crate::types::{
    field_views, DescriptorView, Expr, FieldType, FieldTypeView, FieldView, FuturedField,
    OutputStructAbstraction,
};
use crate::queue::{reversed, take_next};
use vstd::prelude::*;

verus! {

/// A name and the expression whose value it gets.
pub struct BindingView {
    pub name: IdentView,
    pub value: Seq<TokenView>,
}

impl FieldView {
    /// The field as a name and its expression.
    pub open spec fn binding(self) -> BindingView {
        BindingView { name: self.name, value: self.value.tokens() }
    }
}

/// The views of a run of pairs, one for one.
pub open spec fn binding_views(pairs: Seq<(Ident, Expr)>) -> Seq<BindingView> {
    pairs.map_values(|p: (Ident, Expr)| BindingView { name: p.0@, value: p.1@ })
}

/// The views of a run of identifiers, one for one.
pub open spec fn ident_views(names: Seq<Ident>) -> Seq<IdentView> {
    names.map_values(|n: Ident| n@)
}

/// The fields whose value is a future, in the order of their declaration.
pub open spec fn resolvable(fields: Seq<FieldView>) -> Seq<BindingView> {
    fields.filter(|f: FieldView| f.is_future()).map_values(|f: FieldView| f.binding())
}

/// The fields whose value is no future, in the order of their declaration.
pub open spec fn normal(fields: Seq<FieldView>) -> Seq<BindingView> {
    fields.filter(|f: FieldView| !f.is_future()).map_values(|f: FieldView| f.binding())
}

/// For each field, in the order of declaration, whether its value is a future.
pub open spec fn layout(fields: Seq<FieldView>) -> Seq<bool> {
    fields.map_values(|f: FieldView| f.is_future())
}

/// The fields of an invocation, sorted by kind.
pub struct ExprContainer {
    /// The fields with a future, each with its `async` block.
    pub resolvable_fields: Vec<(Ident, Expr)>,
    /// The other fields, each with its expression.
    pub normal_fields: Vec<(Ident, Expr)>,
    /// For each declared field, in order, whether it went to
    /// `resolvable_fields`.
    pub layout: Vec<bool>,
}

/// What a container holds.
pub struct ContainerView {
    pub resolvable: Seq<BindingView>,
    pub normal: Seq<BindingView>,
    pub layout: Seq<bool>,
}

impl View for ExprContainer {
    type V = ContainerView;

    open spec fn view(&self) -> ContainerView {
        ContainerView {
            resolvable: binding_views(self.resolvable_fields@),
            normal: binding_views(self.normal_fields@),
            layout: self.layout@,
        }
    }
}

/// Sorting one more field: it joins the list of its kind, at the end.
pub proof fn lemma_sort_push(fields: Seq<FieldView>, field: FieldView)
    ensures
        resolvable(fields.push(field)) == if field.is_future() {
            resolvable(fields).push(field.binding())
        } else {
            resolvable(fields)
        },
        normal(fields.push(field)) == if field.is_future() {
            normal(fields)
        } else {
            normal(fields).push(field.binding())
        },
        layout(fields.push(field)) == layout(fields).push(field.is_future()),
{
    broadcast use Seq::lemma_filter_push;

    let future = |f: FieldView| f.is_future();
    let plain = |f: FieldView| !f.is_future();
    let bind = |f: FieldView| f.binding();
    assert(fields.push(field).filter(future).map_values(bind) =~= if field.is_future() {
        fields.filter(future).map_values(bind).push(field.binding())
    } else {
        fields.filter(future).map_values(bind)
    });
    assert(fields.push(field).filter(plain).map_values(bind) =~= if field.is_future() {
        fields.filter(plain).map_values(bind)
    } else {
        fields.filter(plain).map_values(bind).push(field.binding())
    });
    assert(layout(fields.push(field)) =~= layout(fields).push(field.is_future()));
}

impl Expr {
    /// The expression of a field's value, whatever its kind.
    pub fn from(value: FieldType) -> (expr: Expr)
        ensures
            expr@ == value@.tokens(),
    {
        match value {
            FieldType::Future(block) => Expr { tokens: block.tokens },
            FieldType::Normal(expr) => expr,
        }
    }
}

impl FieldType {
    /// Tells whether the value is a future.
    pub fn is_future(&self) -> (future: bool)
        ensures
            future == (self@ is Future),
    {
        match self {
            FieldType::Future(_) => true,
            FieldType::Normal(_) => false,
        }
    }
}

impl ExprContainer {
    /// Sorts the fields by kind. Each list keeps the order of declaration.
    pub fn from(value: Vec<FuturedField>) -> (sorted: ExprContainer)
        ensures
            sorted@.resolvable == resolvable(field_views(value@)),
            sorted@.normal == normal(field_views(value@)),
            sorted@.layout == layout(field_views(value@)),
    {
        let mut resolvable_fields: Vec<(Ident, Expr)> = Vec::new();
        let mut normal_fields: Vec<(Ident, Expr)> = Vec::new();
        let mut order: Vec<bool> = Vec::new();
        proof {
            assert(field_views(value@.take(0)) =~= Seq::<FieldView>::empty());
            assert(resolvable(Seq::<FieldView>::empty()) =~= Seq::<BindingView>::empty()) by {
                reveal(Seq::filter);
            }
            assert(normal(Seq::<FieldView>::empty()) =~= Seq::<BindingView>::empty()) by {
                reveal(Seq::filter);
            }
        }
        for field in it: value
            invariant
                it.seq() == value@,
                binding_views(resolvable_fields@) == resolvable(
                    field_views(value@.take(it.index() as int)),
                ),
                binding_views(normal_fields@) == normal(
                    field_views(value@.take(it.index() as int)),
                ),
                order@ == layout(field_views(value@.take(it.index() as int))),
        {
            let ghost seen = field_views(value@.take(it.index() as int));
            proof {
                lemma_sort_push(seen, field@);
                assert(field_views(value@.take(it.index() + 1)) =~= seen.push(field@));
            }
            let ghost bound = binding_views(resolvable_fields@);
            let ghost given = binding_views(normal_fields@);
            let future = field.value.is_future();
            let expr = Expr::from(field.value);
            if future {
                resolvable_fields.push((field.name, expr));
                assert(binding_views(resolvable_fields@) =~= bound.push(field@.binding()));
            } else {
                normal_fields.push((field.name, expr));
                assert(binding_views(normal_fields@) =~= given.push(field@.binding()));
            }
            order.push(future);
        }
        assert(value@.take(value@.len() as int) =~= value@);
        ExprContainer { resolvable_fields, normal_fields, layout: order }
    }
}

/// The parts, with a `,` after each.
pub open spec fn terminated(parts: Seq<Seq<TokenView>>) -> Seq<TokenView>
    decreases parts.len(),
{
    if parts.len() == 0 {
        Seq::empty()
    } else {
        terminated(parts.drop_last()) + parts.last() + seq![mark(',')]
    }
}

/// The parts, with a `,` between each two.
pub open spec fn separated(parts: Seq<Seq<TokenView>>) -> Seq<TokenView>
    decreases parts.len(),
{
    if parts.len() == 0 {
        Seq::empty()
    } else if parts.len() == 1 {
        parts[0]
    } else {
        separated(parts.drop_last()) + seq![mark(',')] + parts.last()
    }
}

/// The names that are bound, in order.
pub open spec fn names_of(bound: Seq<BindingView>) -> Seq<IdentView> {
    bound.map_values(|b: BindingView| b.name)
}

/// Each bound name as the one token it is written with.
pub open spec fn name_tokens(bound: Seq<BindingView>) -> Seq<Seq<TokenView>> {
    bound.map_values(|b: BindingView| seq![b.name.token()])
}

/// The expressions whose values are bound, in order.
pub open spec fn values_of(bound: Seq<BindingView>) -> Seq<Seq<TokenView>> {
    bound.map_values(|b: BindingView| b.value)
}

/// The statement that resolves the futures together and binds what each
/// yields to the name of its field:
/// `let (a, b,) = tokio::join!(x, y);`, or, where failures are passed on,
/// `let (a, b,) = tokio::try_join!(x, y)?;`. The name at a place of the
/// pattern belongs to the expression at the same place of the call.
pub open spec fn join_code(bound: Seq<BindingView>, triable: bool) -> Seq<TokenView> {
    seq![
        word("let"@),
        enclosed(Delimiter::Parenthesis, terminated(name_tokens(bound))),
        mark('='),
        word("tokio"@),
        joined(':'),
        mark(':'),
        word(if triable { "try_join"@ } else { "join"@ }),
        mark('!'),
        enclosed(Delimiter::Parenthesis, separated(values_of(bound))),
    ] + (if triable {
        seq![mark('?')]
    } else {
        Seq::empty()
    }) + seq![mark(';')]
}

/// How the struct gets the field: a future by the name that the join bound,
/// any other as `name: value`.
pub open spec fn initializer(field: FieldView) -> Seq<TokenView> {
    match field.value {
        FieldTypeView::Future(_) => seq![field.name.token()],
        FieldTypeView::Normal(tokens) => seq![field.name.token(), mark(':')] + tokens,
    }
}

/// The initializer of each field, in the order of declaration.
pub open spec fn initializers(fields: Seq<FieldView>) -> Seq<Seq<TokenView>> {
    fields.map_values(|f: FieldView| initializer(f))
}

/// The expression that builds the struct, with every field in the order of
/// its declaration: `Name { a, n: 1, b }`, or, where failures are passed on,
/// `Ok(Name { a, n: 1, b })`.
pub open spec fn struct_code(struct_name: IdentView, fields: Seq<FieldView>, triable: bool) -> Seq<
    TokenView,
> {
    let literal = seq![
        struct_name.token(),
        enclosed(Delimiter::Brace, separated(initializers(fields))),
    ];
    if triable {
        seq![word("Ok"@), enclosed(Delimiter::Parenthesis, literal)]
    } else {
        literal
    }
}

/// The code that an invocation with at least one future stands for: an
/// `async` block that first joins the futures and then builds the struct.
pub open spec fn expansion(descriptor: DescriptorView, triable: bool) -> Seq<TokenView> {
    seq![
        word("async"@),
        enclosed(
            Delimiter::Brace,
            join_code(resolvable(descriptor.fields), triable) + struct_code(
                descriptor.struct_name,
                descriptor.fields,
                triable,
            ),
        ),
    ]
}

/// Writes the statement that joins the futures of `fields`, and hands back
/// with it the names that the statement binds. There is none for no futures.
pub fn concurrent_join_expression(fields: Vec<(Ident, Expr)>, triable_futures: bool) -> (r: Option<
    (Vec<Token>, Vec<Ident>),
>)
    ensures
        fields@.len() == 0 <==> r is None,
        r matches Some((code, names)) ==> views(code@) == join_code(
            binding_views(fields@),
            triable_futures,
        ) && ident_views(names@) == names_of(binding_views(fields@)),
{
    if fields.len() == 0 {
        return None;
    }
    let mut pattern: Vec<Token> = Vec::new();
    let mut arguments: Vec<Token> = Vec::new();
    let mut names: Vec<Ident> = Vec::new();
    proof {
        assert(binding_views(fields@.take(0)) =~= Seq::<BindingView>::empty());
        assert(views(pattern@) =~= Seq::<TokenView>::empty());
        assert(views(arguments@) =~= Seq::<TokenView>::empty());
    }
    for pair in it: fields
        invariant
            it.seq() == fields@,
            names@.len() == it.index(),
            views(pattern@) == terminated(
                name_tokens(binding_views(fields@.take(it.index() as int))),
            ),
            views(arguments@) == separated(
                values_of(binding_views(fields@.take(it.index() as int))),
            ),
            ident_views(names@) == names_of(binding_views(fields@.take(it.index() as int))),
    {
        let ghost seen = binding_views(fields@.take(it.index() as int));
        let ghost next = binding_views(fields@.take(it.index() + 1));
        let ghost old_pattern = views(pattern@);
        let ghost old_arguments = views(arguments@);
        let ghost old_names = ident_views(names@);
        let (name, expr) = pair;
        let ghost bound = BindingView { name: name@, value: expr@ };
        proof {
            assert(next =~= seen.push(bound));
            assert(next.drop_last() =~= seen);
            assert(name_tokens(next).drop_last() =~= name_tokens(seen));
            assert(values_of(next).drop_last() =~= values_of(seen));
            assert(names_of(next) =~= names_of(seen).push(name@));
        }
        pattern.push(name.clone().into_token());
        pattern.push(Token::mark(','));
        assert(views(pattern@) =~= old_pattern + seq![name@.token()] + seq![mark(',')]);
        if names.len() > 0 {
            arguments.push(Token::mark(','));
        }
        let mut tokens = expr.tokens;
        arguments.append(&mut tokens);
        assert(views(arguments@) =~= if seen.len() > 0 {
            old_arguments + seq![mark(',')] + expr@
        } else {
            expr@
        });
        names.push(name);
        assert(ident_views(names@) =~= old_names.push(name@));
    }
    assert(fields@.take(fields@.len() as int) =~= fields@);
    let mut code: Vec<Token> = Vec::new();
    code.push(Token::word("let"));
    code.push(Token::enclosed(Delimiter::Parenthesis, pattern));
    code.push(Token::mark('='));
    code.push(Token::word("tokio"));
    code.push(Token::joined(':'));
    code.push(Token::mark(':'));
    if triable_futures {
        code.push(Token::word("try_join"));
    } else {
        code.push(Token::word("join"));
    }
    code.push(Token::mark('!'));
    code.push(Token::enclosed(Delimiter::Parenthesis, arguments));
    if triable_futures {
        code.push(Token::mark('?'));
    }
    code.push(Token::mark(';'));
    assert(views(code@) =~= join_code(binding_views(fields@), triable_futures));
    Some((code, names))
}

/// The fields seen so far are sorted as the first of all the fields are: each
/// sorted list of a front part begins the sorted list of the whole.
pub proof fn lemma_sorted_prefix(fields: Seq<FieldView>, k: int)
    requires
        0 <= k <= fields.len(),
    ensures
        resolvable(fields.take(k)).len() <= resolvable(fields).len(),
        resolvable(fields.take(k)) == resolvable(fields).take(
            resolvable(fields.take(k)).len() as int,
        ),
        normal(fields.take(k)).len() <= normal(fields).len(),
        normal(fields.take(k)) == normal(fields).take(normal(fields.take(k)).len() as int),
{
    let front = fields.take(k);
    let back = fields.skip(k);
    let future = |f: FieldView| f.is_future();
    let plain = |f: FieldView| !f.is_future();
    assert(fields =~= front + back);
    Seq::filter_distributes_over_add(front, back, future);
    Seq::filter_distributes_over_add(front, back, plain);
    assert(resolvable(fields) =~= resolvable(front) + resolvable(back));
    assert(normal(fields) =~= normal(front) + normal(back));
    assert(resolvable(front) =~= resolvable(fields).take(resolvable(front).len() as int));
    assert(normal(front) =~= normal(fields).take(normal(front).len() as int));
}

/// The number of futures that are declared before the `k`th field: where
/// that field holds a future, its place in the join.
pub open spec fn future_rank(fields: Seq<FieldView>, k: int) -> int {
    resolvable(fields.take(k)).len() as int
}

/// The number of other fields that are declared before the `k`th field.
pub open spec fn plain_rank(fields: Seq<FieldView>, k: int) -> int {
    normal(fields.take(k)).len() as int
}

/// Each sorted list holds as many fields as are of its kind, and a field's
/// rank is its place in the list of its kind.
pub proof fn lemma_rank(fields: Seq<FieldView>, k: int)
    requires
        0 <= k < fields.len(),
    ensures
        fields[k].is_future() ==> 0 <= future_rank(fields, k) < resolvable(fields).len()
            && resolvable(fields)[future_rank(fields, k)] == fields[k].binding(),
        !fields[k].is_future() ==> 0 <= plain_rank(fields, k) < normal(fields).len() && normal(
            fields,
        )[plain_rank(fields, k)] == fields[k].binding(),
{
    let seen = fields.take(k);
    assert(fields.take(k + 1) =~= seen.push(fields[k]));
    lemma_sort_push(seen, fields[k]);
    lemma_sorted_prefix(fields, k + 1);
    if fields[k].is_future() {
        let a = future_rank(fields, k);
        assert(resolvable(fields.take(k + 1))[a] == fields[k].binding());
        assert(resolvable(fields).take(a + 1)[a] == resolvable(fields)[a]);
    } else {
        let n = plain_rank(fields, k);
        assert(normal(fields.take(k + 1))[n] == fields[k].binding());
        assert(normal(fields).take(n + 1)[n] == normal(fields)[n]);
    }
}

/// Every place of the join belongs to a field that holds a future, and is
/// that field's rank.
pub proof fn lemma_place_has_field(fields: Seq<FieldView>, j: int) -> (k: int)
    requires
        0 <= j < resolvable(fields).len(),
    ensures
        0 <= k < fields.len(),
        fields[k].is_future(),
        future_rank(fields, k) == j,
    decreases fields.len(),
{
    if fields.len() == 0 {
        assert(resolvable(fields) =~= Seq::<BindingView>::empty()) by {
            reveal(Seq::filter);
        }
        0
    } else {
        let front = fields.drop_last();
        let last = fields.last();
        assert(fields =~= front.push(last));
        lemma_sort_push(front, last);
        if last.is_future() && j == resolvable(front).len() {
            assert(fields.take(fields.len() - 1) =~= front);
            fields.len() - 1
        } else {
            let k = lemma_place_has_field(front, j);
            assert(fields.take(k) =~= front.take(k));
            k
        }
    }
}

/// Every place of the list of the other fields belongs to a field that holds
/// no future, and is that field's rank.
pub proof fn lemma_place_has_plain_field(fields: Seq<FieldView>, j: int) -> (k: int)
    requires
        0 <= j < normal(fields).len(),
    ensures
        0 <= k < fields.len(),
        !fields[k].is_future(),
        plain_rank(fields, k) == j,
    decreases fields.len(),
{
    if fields.len() == 0 {
        assert(normal(fields) =~= Seq::<BindingView>::empty()) by {
            reveal(Seq::filter);
        }
        0
    } else {
        let front = fields.drop_last();
        let last = fields.last();
        assert(fields =~= front.push(last));
        lemma_sort_push(front, last);
        if !last.is_future() && j == normal(front).len() {
            assert(fields.take(fields.len() - 1) =~= front);
            fields.len() - 1
        } else {
            let k = lemma_place_has_plain_field(front, j);
            assert(fields.take(k) =~= front.take(k));
            k
        }
    }
}

/// Every field is of one kind or of the other.
pub proof fn lemma_sorted_lengths(fields: Seq<FieldView>)
    ensures
        resolvable(fields).len() + normal(fields).len() == fields.len(),
    decreases fields.len(),
{
    if fields.len() == 0 {
        reveal(Seq::filter);
        assert(resolvable(fields) =~= Seq::<BindingView>::empty());
        assert(normal(fields) =~= Seq::<BindingView>::empty());
    } else {
        assert(fields =~= fields.drop_last().push(fields.last()));
        lemma_sort_push(fields.drop_last(), fields.last());
        lemma_sorted_lengths(fields.drop_last());
    }
}

/// Writes the initializers of the struct's fields, in the order of their
/// declaration, from the fields sorted by kind.
fn struct_fields(
    async_fields: Vec<Ident>,
    normal_fields: Vec<(Ident, Expr)>,
    layout: Vec<bool>,
    Ghost(fields): Ghost<Seq<FieldView>>,
) -> (code: Vec<Token>)
    requires
        ident_views(async_fields@) == names_of(resolvable(fields)),
        binding_views(normal_fields@) == normal(fields),
        layout@ == self::layout(fields),
    ensures
        views(code@) == separated(initializers(fields)),
{
    let ghost bound_names = async_fields@;
    let ghost given_pairs = normal_fields@;
    let mut bound = reversed(async_fields);
    let mut given = reversed(normal_fields);
    let mut code: Vec<Token> = Vec::new();
    let mut k: usize = 0;
    proof {
        assert(initializers(fields.take(0)) =~= Seq::<Seq<TokenView>>::empty());
        assert(views(code@) =~= Seq::<TokenView>::empty());
        assert(resolvable(fields.take(0)) =~= Seq::<BindingView>::empty()) by {
            reveal(Seq::filter);
        }
        assert(normal(fields.take(0)) =~= Seq::<BindingView>::empty()) by {
            reveal(Seq::filter);
        }
        assert(bound_names.skip(0) =~= bound_names);
        assert(given_pairs.skip(0) =~= given_pairs);
    }
    while k < layout.len()
        invariant
            k <= layout@.len(),
            layout@ == self::layout(fields),
            ident_views(bound_names) == names_of(resolvable(fields)),
            binding_views(given_pairs) == normal(fields),
            bound@ == bound_names.skip(resolvable(fields.take(k as int)).len() as int).reverse(),
            given@ == given_pairs.skip(normal(fields.take(k as int)).len() as int).reverse(),
            views(code@) == separated(initializers(fields.take(k as int))),
        decreases layout@.len() - k,
    {
        let ghost field = fields[k as int];
        let ghost seen = fields.take(k as int);
        let ghost a = resolvable(seen).len() as int;
        let ghost n = normal(seen).len() as int;
        let ghost old_code = views(code@);
        proof {
            assert(fields.take(k + 1) =~= seen.push(field));
            lemma_sort_push(seen, field);
            lemma_sorted_prefix(fields, k + 1);
            assert(initializers(fields.take(k + 1)).drop_last() =~= initializers(seen));
            assert(initializers(fields.take(k + 1)).last() == initializer(field));
            assert(layout@[k as int] == field.is_future());
            if field.is_future() {
                let sorted = resolvable(fields.take(k + 1));
                assert(sorted == resolvable(seen).push(field.binding()));
                assert(sorted[a] == field.binding());
                assert(resolvable(fields).take(a + 1)[a] == resolvable(fields)[a]);
                assert(sorted.len() == a + 1);
                assert(ident_views(bound_names).len() == bound_names.len());
                assert(names_of(resolvable(fields)).len() == resolvable(fields).len());
                assert(a < bound_names.len());
                assert(ident_views(bound_names)[a] == field.name);
                assert(bound_names.skip(a).len() > 0);
                assert(bound_names.skip(a)[0] == bound_names[a]);
            } else {
                let sorted = normal(fields.take(k + 1));
                assert(sorted == normal(seen).push(field.binding()));
                assert(sorted[n] == field.binding());
                assert(normal(fields).take(n + 1)[n] == normal(fields)[n]);
                assert(binding_views(given_pairs)[n] == field.binding());
                assert(given_pairs.skip(n).len() > 0);
                assert(given_pairs.skip(n)[0] == given_pairs[n]);
            }
        }
        if k > 0 {
            code.push(Token::mark(','));
        }
        if layout[k] {
            let name = take_next(&mut bound, Ghost(bound_names.skip(a)));
            assert(bound_names.skip(a).skip(1) =~= bound_names.skip(a + 1));
            code.push(name.into_token());
        } else {
            let (name, expr) = take_next(&mut given, Ghost(given_pairs.skip(n)));
            assert(given_pairs.skip(n).skip(1) =~= given_pairs.skip(n + 1));
            code.push(name.into_token());
            code.push(Token::mark(':'));
            let mut tokens = expr.tokens;
            code.append(&mut tokens);
        }
        assert(views(code@) =~= if k > 0 {
            old_code + seq![mark(',')] + initializer(field)
        } else {
            initializer(field)
        });
        k += 1;
    }
    assert(fields.take(k as int) =~= fields);
    code
}

/// Why an invocation has no expansion.
#[derive(Debug, PartialEq, Eq)]
pub enum ExpandError {
    /// The invocation does not parse.
    Syntax(crate::types::ParseError),
    /// No field holds a future: there is nothing to resolve.
    NoFutures,
}

/// What an `ExpandError` says.
pub enum ExpandErrorView {
    Syntax(crate::types::ParseErrorView),
    NoFutures,
}

impl View for ExpandError {
    type V = ExpandErrorView;

    open spec fn view(&self) -> ExpandErrorView {
        match self {
            ExpandError::Syntax(e) => ExpandErrorView::Syntax(e@),
            ExpandError::NoFutures => ExpandErrorView::NoFutures,
        }
    }
}

/// The diagnostic of an invocation without a future.
pub open spec fn no_futures_text() -> Seq<char> {
    "No futures provided to resolve. (consider removing the macro)"@
}

impl ExpandError {
    /// The diagnostic, in words.
    pub fn message(&self) -> (text: String)
        ensures
            text@ == match self@ {
                ExpandErrorView::Syntax(e) => crate::types::message_text(e),
                ExpandErrorView::NoFutures => no_futures_text(),
            },
    {
        match self {
            ExpandError::Syntax(e) => e.message(),
            ExpandError::NoFutures => String::from_str(
                "No futures provided to resolve. (consider removing the macro)",
            ),
        }
    }
}

/// What an invocation expands to: the code of `expansion` where at least one
/// field holds a future, and no code where none does.
pub open spec fn expanded(descriptor: DescriptorView, triable: bool) -> Result<
    Seq<TokenView>,
    ExpandErrorView,
> {
    if resolvable(descriptor.fields).len() == 0 {
        Err(ExpandErrorView::NoFutures)
    } else {
        Ok(expansion(descriptor, triable))
    }
}

/// An invocation has an expansion exactly when one of its fields holds a
/// future, however many other fields there are; without one the outcome is
/// the error that says so, and there is no code.
pub proof fn lemma_expands_iff_future(descriptor: DescriptorView, triable: bool)
    ensures
        expanded(descriptor, triable) is Ok <==> exists|k: int|
            0 <= k < descriptor.fields.len() && descriptor.fields[k].is_future(),
        expanded(descriptor, triable) is Ok ==> expanded(descriptor, triable) == Ok::<
            Seq<TokenView>,
            ExpandErrorView,
        >(expansion(descriptor, triable)),
        expanded(descriptor, triable) is Err ==> expanded(descriptor, triable) == Err::<
            Seq<TokenView>,
            ExpandErrorView,
        >(ExpandErrorView::NoFutures),
{
    let fields = descriptor.fields;
    if resolvable(fields).len() > 0 {
        let k = lemma_place_has_field(fields, 0);
        assert(0 <= k < fields.len() && fields[k].is_future());
    }
    assert forall|k: int| 0 <= k < fields.len() && fields[k].is_future() implies resolvable(
        fields,
    ).len() > 0 by {
        lemma_rank(fields, k);
    }
}

/// Writes the code that the invocation `data` stands for: an `async` block
/// that resolves the futures together and then builds the struct. With
/// `triable_futures` the futures yield results: the first failure leaves the
/// block, and the struct comes wrapped in `Ok`. An invocation without a future
/// has no expansion.
pub fn concurrent_struct_constructor(data: OutputStructAbstraction, triable_futures: bool) -> (r:
    Result<Vec<Token>, ExpandError>)
    ensures
        match expanded(data@, triable_futures) {
            Ok(expansion) => r matches Ok(code) && views(code@) == expansion,
            Err(e) => r matches Err(err) && err@ == e,
        },
{
    let OutputStructAbstraction { struct_name, fields } = data;
    let ghost declared = field_views(fields@);
    let ExprContainer { resolvable_fields, normal_fields, layout } = ExprContainer::from(fields);
    let (concurrent_code, async_fields) = match concurrent_join_expression(
        resolvable_fields,
        triable_futures,
    ) {
        Some(inner) => inner,
        None => {
            return Err(ExpandError::NoFutures);
        },
    };
    let mut literal: Vec<Token> = Vec::new();
    literal.push(struct_name.into_token());
    literal.push(
        Token::enclosed(
            Delimiter::Brace,
            struct_fields(async_fields, normal_fields, layout, Ghost(declared)),
        ),
    );
    assert(views(literal@) =~= seq![
        data@.struct_name.token(),
        enclosed(Delimiter::Brace, separated(initializers(declared))),
    ]);
    let mut body = concurrent_code;
    let ghost join = views(body@);
    if triable_futures {
        body.push(Token::word("Ok"));
        body.push(Token::enclosed(Delimiter::Parenthesis, literal));
    } else {
        body.append(&mut literal);
    }
    assert(views(body@) =~= join + struct_code(data@.struct_name, declared, triable_futures));
    assert(views(body@) =~= join_code(resolvable(declared), triable_futures) + struct_code(
        data@.struct_name,
        declared,
        triable_futures,
    ));
    let mut code: Vec<Token> = Vec::new();
    code.push(Token::word("async"));
    code.push(Token::enclosed(Delimiter::Brace, body));
    assert(views(code@) =~= expansion(data@, triable_futures));
    Ok(code)
}

} // verus!
