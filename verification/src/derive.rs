//! What `#[derive(Record)]` decides: the table name, the id field and its key.
use vstd::prelude::*;
use crate::naming;
use crate::text::str_eq;

verus! {

/// One item inside a `#[serde(...)]` attribute.
#[derive(Debug)]
pub enum SerdeMeta {
    /// `name = value`; the value where it is a string literal.
    NameValue { name: String, value: Option<String> },
    /// `name(...)`.
    List { name: String },
    /// Any other item.
    Other,
    /// The attribute could not be parsed.
    Invalid(String),
}

/// One item inside a `#[record(...)]` attribute.
#[derive(Debug)]
pub enum RecordMeta {
    /// An item that starts with a name: the string literal after its `=`, or
    /// why there is none, and what is wrong with the item where it is more than
    /// the name alone.
    Item { name: String, value: Result<String, String>, excess: Option<String> },
    /// The attribute could not be parsed.
    Invalid(String),
}

/// A named field of the struct.
#[derive(Debug)]
pub struct FieldInput {
    /// The name, without `r#`.
    pub name: String,
    pub record: Vec<RecordMeta>,
    pub serde: Vec<SerdeMeta>,
}

/// The struct that the derive is applied to.
#[derive(Debug)]
pub struct StructInput {
    pub name: String,
    /// Whether this is a struct with named fields.
    pub named_fields: bool,
    pub record: Vec<RecordMeta>,
    pub serde: Vec<SerdeMeta>,
    pub fields: Vec<FieldInput>,
}

/// What the derive generates.
#[derive(Debug, PartialEq, Eq)]
pub struct Expansion {
    /// The table name.
    pub table: String,
    /// Which field is the id.
    pub id_index: usize,
    /// The id's key in the serialized object.
    pub id_key: String,
}

/// Why the derive cannot be applied, and the field at fault where it is one.
#[derive(Debug, PartialEq, Eq)]
pub struct ExpandError {
    pub message: String,
    pub field: Option<usize>,
}

/// What an [`ExpandError`] stands for.
pub struct ExpandFault {
    pub message: Seq<char>,
    pub field: Option<usize>,
}

impl View for ExpandError {
    type V = ExpandFault;

    open spec fn view(&self) -> ExpandFault {
        ExpandFault { message: self.message@, field: self.field }
    }
}

/// What a text that may be missing stands for.
pub open spec fn text_view(t: Option<String>) -> Option<Seq<char>> {
    match t {
        Some(s) => Some(s@),
        None => None,
    }
}

/// What a result with a text that may be missing stands for.
pub open spec fn found_view(r: Result<Option<String>, String>) -> Result<
    Option<Seq<char>>,
    Seq<char>,
> {
    match r {
        Ok(t) => Ok(text_view(t)),
        Err(m) => Err(m@),
    }
}

/// The message for a name that is split by direction.
pub open spec fn split_message(key: Seq<char>) -> Seq<char> {
    "#[derive(Record)] needs the same name for serialize and deserialize; use `"@ + key
        + " = \"...\"`"@
}

/// The string that the items give to `key`: the last one, or an error where an
/// item cannot be parsed or gives one name per direction.
pub open spec fn string_value(metas: Seq<SerdeMeta>, key: Seq<char>) -> Result<
    Option<Seq<char>>,
    Seq<char>,
>
    decreases metas.len(),
{
    if metas.len() == 0 {
        Ok(None)
    } else {
        match string_value(metas.drop_last(), key) {
            Err(m) => Err(m),
            Ok(found) => match metas.last() {
                SerdeMeta::NameValue { name, value } => if name@ == key && value is Some {
                    Ok(text_view(value))
                } else {
                    Ok(found)
                },
                SerdeMeta::List { name } => if name@ == key {
                    Err(split_message(key))
                } else {
                    Ok(found)
                },
                SerdeMeta::Other => Ok(found),
                SerdeMeta::Invalid(m) => Err(m@),
            },
        }
    }
}

proof fn lemma_string_error_stays(metas: Seq<SerdeMeta>, n: int, key: Seq<char>)
    requires
        0 <= n <= metas.len(),
        string_value(metas.take(n), key) is Err,
    ensures
        string_value(metas, key) == string_value(metas.take(n), key),
    decreases metas.len() - n,
{
    if n == metas.len() {
        assert(metas.take(n) =~= metas);
    } else {
        assert(metas.take(n + 1).drop_last() =~= metas.take(n));
        lemma_string_error_stays(metas, n + 1, key);
    }
}

/// Finds `key = "value"` among the items of `#[serde(...)]` attributes. The
/// list forms (`rename(serialize = "..")`) are rejected, since the store needs
/// one key for both directions.
pub fn serde_string_value(metas: &Vec<SerdeMeta>, key: &str) -> (r: Result<Option<String>, String>)
    ensures
        found_view(r) == string_value(metas@, key@),
{
    let mut found: Option<String> = None;
    let mut i: usize = 0;
    assert(metas@.take(0) =~= Seq::<SerdeMeta>::empty());
    while i < metas.len()
        invariant
            0 <= i <= metas@.len(),
            string_value(metas@.take(i as int), key@) == Ok::<Option<Seq<char>>, Seq<char>>(
                text_view(found),
            ),
        decreases metas@.len() - i,
    {
        proof {
            assert(metas@.take(i + 1).drop_last() =~= metas@.take(i as int));
            assert(metas@.take(i + 1).last() == metas@[i as int]);
        }
        match &metas[i] {
            SerdeMeta::NameValue { name, value } => {
                if str_eq(name.as_str(), key) {
                    match value {
                        Some(s) => {
                            found = Some(s.clone());
                        },
                        None => {},
                    }
                }
            },
            SerdeMeta::List { name } => {
                if str_eq(name.as_str(), key) {
                    let message =
                        "#[derive(Record)] needs the same name for serialize and deserialize; use `".to_owned().concat(
                    key).concat(" = \"...\"`");
                    proof {
                        lemma_string_error_stays(metas@, i + 1, key@);
                    }
                    return Err(message);
                }
            },
            SerdeMeta::Other => {},
            SerdeMeta::Invalid(m) => {
                proof {
                    lemma_string_error_stays(metas@, i + 1, key@);
                }
                return Err(m.clone());
            },
        }
        i = i + 1;
    }
    assert(metas@.take(i as int) =~= metas@);
    Ok(found)
}

/// The table name that the items of `#[record(...)]` attributes on the struct
/// give: the last one, or an error where an item is not a table name.
pub open spec fn table_value(metas: Seq<RecordMeta>) -> Result<Option<Seq<char>>, Seq<char>>
    decreases metas.len(),
{
    if metas.len() == 0 {
        Ok(None)
    } else {
        match table_value(metas.drop_last()) {
            Err(m) => Err(m),
            Ok(_) => match metas.last() {
                RecordMeta::Item { name, value, .. } => if name@ == "table"@ {
                    match value {
                        Ok(table) => Ok(Some(table@)),
                        Err(m) => Err(m@),
                    }
                } else {
                    Err("unsupported #[record] attribute; expected `table = \"...\"`"@)
                },
                RecordMeta::Invalid(m) => Err(m@),
            },
        }
    }
}

proof fn lemma_table_error_stays(metas: Seq<RecordMeta>, n: int)
    requires
        0 <= n <= metas.len(),
        table_value(metas.take(n)) is Err,
    ensures
        table_value(metas) == table_value(metas.take(n)),
    decreases metas.len() - n,
{
    if n == metas.len() {
        assert(metas.take(n) =~= metas);
    } else {
        assert(metas.take(n + 1).drop_last() =~= metas.take(n));
        lemma_table_error_stays(metas, n + 1);
    }
}

fn table_attribute(metas: &Vec<RecordMeta>) -> (r: Result<Option<String>, String>)
    ensures
        found_view(r) == table_value(metas@),
{
    let mut found: Option<String> = None;
    let mut i: usize = 0;
    assert(metas@.take(0) =~= Seq::<RecordMeta>::empty());
    while i < metas.len()
        invariant
            0 <= i <= metas@.len(),
            table_value(metas@.take(i as int)) == Ok::<Option<Seq<char>>, Seq<char>>(
                text_view(found),
            ),
        decreases metas@.len() - i,
    {
        proof {
            assert(metas@.take(i + 1).drop_last() =~= metas@.take(i as int));
            assert(metas@.take(i + 1).last() == metas@[i as int]);
        }
        match &metas[i] {
            RecordMeta::Item { name, value, .. } => {
                if !str_eq(name.as_str(), "table") {
                    proof {
                        lemma_table_error_stays(metas@, i + 1);
                    }
                    return Err(
                        "unsupported #[record] attribute; expected `table = \"...\"`".to_owned(),
                    );
                }
                match value {
                    Ok(table) => {
                        found = Some(table.clone());
                    },
                    Err(m) => {
                        proof {
                            lemma_table_error_stays(metas@, i + 1);
                        }
                        return Err(m.clone());
                    },
                }
            },
            RecordMeta::Invalid(m) => {
                proof {
                    lemma_table_error_stays(metas@, i + 1);
                }
                return Err(m.clone());
            },
        }
        i = i + 1;
    }
    assert(metas@.take(i as int) =~= metas@);
    Ok(found)
}

/// How often the items of `#[record(...)]` attributes on a field mark it as
/// the id, or an error where an item is anything else.
pub open spec fn id_marks(metas: Seq<RecordMeta>) -> Result<nat, Seq<char>>
    decreases metas.len(),
{
    if metas.len() == 0 {
        Ok(0)
    } else {
        match id_marks(metas.drop_last()) {
            Err(m) => Err(m),
            Ok(n) => match metas.last() {
                RecordMeta::Item { name, excess, .. } => if name@ == "id"@ {
                    match excess {
                        None => Ok(n + 1),
                        Some(m) => Err(m@),
                    }
                } else {
                    Err("unsupported #[record] field attribute; expected `id`"@)
                },
                RecordMeta::Invalid(m) => Err(m@),
            },
        }
    }
}

proof fn lemma_marks_error_stays(metas: Seq<RecordMeta>, n: int)
    requires
        0 <= n <= metas.len(),
        id_marks(metas.take(n)) is Err,
    ensures
        id_marks(metas) == id_marks(metas.take(n)),
    decreases metas.len() - n,
{
    if n == metas.len() {
        assert(metas.take(n) =~= metas);
    } else {
        assert(metas.take(n + 1).drop_last() =~= metas.take(n));
        lemma_marks_error_stays(metas, n + 1);
    }
}

/// The positions of the marked fields, one for each mark, or the error of the
/// first field with an item that is no mark.
pub open spec fn marked_fields(fields: Seq<FieldInput>) -> Result<Seq<int>, (int, Seq<char>)>
    decreases fields.len(),
{
    if fields.len() == 0 {
        Ok(Seq::empty())
    } else {
        match marked_fields(fields.drop_last()) {
            Err(e) => Err(e),
            Ok(before) => match id_marks(fields.last().record@) {
                Err(m) => Err((fields.len() - 1, m)),
                Ok(n) => Ok(before + Seq::new(n, |i: int| fields.len() - 1)),
            },
        }
    }
}

proof fn lemma_fields_error_stays(fields: Seq<FieldInput>, n: int)
    requires
        0 <= n <= fields.len(),
        marked_fields(fields.take(n)) is Err,
    ensures
        marked_fields(fields) == marked_fields(fields.take(n)),
    decreases fields.len() - n,
{
    if n == fields.len() {
        assert(fields.take(n) =~= fields);
    } else {
        assert(fields.take(n + 1).drop_last() =~= fields.take(n));
        lemma_fields_error_stays(fields, n + 1);
    }
}

/// What a list of positions stands for.
pub open spec fn positions_view(v: Seq<usize>) -> Seq<int> {
    Seq::new(v.len(), |i: int| v[i] as int)
}

fn marked(fields: &Vec<FieldInput>) -> (r: Result<Vec<usize>, ExpandError>)
    ensures
        match r {
            Ok(v) => marked_fields(fields@) == Ok::<Seq<int>, (int, Seq<char>)>(positions_view(v@)),
            Err(e) => e.field is Some && marked_fields(fields@) == Err::<
                Seq<int>,
                (int, Seq<char>),
            >((e.field->0 as int, e.message@)),
        },
{
    let mut found: Vec<usize> = Vec::new();
    let mut i: usize = 0;
    proof {
        assert(fields@.take(0) =~= Seq::<FieldInput>::empty());
        assert(positions_view(found@) =~= Seq::<int>::empty());
    }
    while i < fields.len()
        invariant
            0 <= i <= fields@.len(),
            marked_fields(fields@.take(i as int)) == Ok::<Seq<int>, (int, Seq<char>)>(
                positions_view(found@),
            ),
        decreases fields@.len() - i,
    {
        let ghost before = positions_view(found@);
        let ghost metas = fields@[i as int].record@;
        proof {
            assert(fields@.take(i + 1).drop_last() =~= fields@.take(i as int));
            assert(fields@.take(i + 1).last() == fields@[i as int]);
            assert(metas.take(0) =~= Seq::<RecordMeta>::empty());
            assert(positions_view(found@) =~= before + Seq::new(0, |k: int| i as int));
        }
        let mut j: usize = 0;
        let ghost mut n: nat = 0;
        while j < fields[i].record.len()
            invariant
                0 <= i < fields@.len(),
                metas == fields@[i as int].record@,
                0 <= j <= metas.len(),
                fields@.take(i + 1).drop_last() == fields@.take(i as int),
                fields@.take(i + 1).last() == fields@[i as int],
                marked_fields(fields@.take(i as int)) == Ok::<Seq<int>, (int, Seq<char>)>(before),
                id_marks(metas.take(j as int)) == Ok::<nat, Seq<char>>(n),
                positions_view(found@) == before + Seq::new(n, |k: int| i as int),
            decreases metas.len() - j,
        {
            proof {
                assert(metas.take(j + 1).drop_last() =~= metas.take(j as int));
                assert(metas.take(j + 1).last() == metas[j as int]);
            }
            match &fields[i].record[j] {
                RecordMeta::Item { name, excess, .. } => {
                    if !str_eq(name.as_str(), "id") {
                        proof {
                            lemma_marks_error_stays(metas, j + 1);
                            lemma_fields_error_stays(fields@, i + 1);
                        }
                        return Err(
                            ExpandError {
                                message: "unsupported #[record] field attribute; expected `id`".to_owned(),
                                field: Some(i),
                            },
                        );
                    }
                    if let Some(m) = excess {
                        proof {
                            lemma_marks_error_stays(metas, j + 1);
                            lemma_fields_error_stays(fields@, i + 1);
                        }
                        return Err(ExpandError { message: m.clone(), field: Some(i) });
                    }
                    let ghost so_far = positions_view(found@);
                    found.push(i);
                    proof {
                        assert(positions_view(found@) =~= so_far.push(i as int));
                        assert(Seq::new(n + 1, |k: int| i as int) =~= Seq::new(
                            n,
                            |k: int| i as int,
                        ).push(i as int));
                        assert(positions_view(found@) =~= before + Seq::new(
                            n + 1,
                            |k: int| i as int,
                        ));
                        n = n + 1;
                    }
                },
                RecordMeta::Invalid(m) => {
                    proof {
                        lemma_marks_error_stays(metas, j + 1);
                        lemma_fields_error_stays(fields@, i + 1);
                    }
                    return Err(ExpandError { message: m.clone(), field: Some(i) });
                },
            }
            j = j + 1;
        }
        proof {
            assert(metas.take(j as int) =~= metas);
            assert(Seq::new(n, |k: int| i as int) =~= Seq::new(
                n,
                |k: int| fields@.take(i + 1).len() - 1,
            ));
        }
        i = i + 1;
    }
    assert(fields@.take(i as int) =~= fields@);
    Ok(found)
}

/// `i` is the first field that is named `id`.
pub open spec fn is_first_named_id(fields: Seq<FieldInput>, i: int) -> bool {
    &&& 0 <= i < fields.len()
    &&& fields[i].name@ == "id"@
    &&& forall|j: int| 0 <= j < i ==> (#[trigger] fields[j]).name@ != "id"@
}

/// No field is named `id`.
pub open spec fn none_named_id(fields: Seq<FieldInput>) -> bool {
    forall|j: int| 0 <= j < fields.len() ==> (#[trigger] fields[j]).name@ != "id"@
}

fn named_id(fields: &Vec<FieldInput>) -> (r: Option<usize>)
    ensures
        match r {
            Some(i) => is_first_named_id(fields@, i as int),
            None => none_named_id(fields@),
        },
{
    let mut i: usize = 0;
    while i < fields.len()
        invariant
            0 <= i <= fields@.len(),
            forall|j: int| 0 <= j < i ==> (#[trigger] fields@[j]).name@ != "id"@,
        decreases fields@.len() - i,
    {
        if str_eq(fields[i].name.as_str(), "id") {
            return Some(i);
        }
        i = i + 1;
    }
    None
}

/// An error about the struct as a whole.
pub open spec fn struct_fault(message: Seq<char>) -> ExpandFault {
    ExpandFault { message, field: None }
}

/// Which field is the id: the marked one, or else the one named `id`.
pub open spec fn id_outcome(fields: Seq<FieldInput>, r: Result<int, ExpandFault>) -> bool {
    match marked_fields(fields) {
        Err((i, message)) => r == Err::<int, ExpandFault>(
            ExpandFault { message, field: Some(i as usize) },
        ),
        Ok(marks) => if marks.len() == 1 {
            r == Ok::<int, ExpandFault>(marks[0])
        } else if marks.len() == 0 {
            match r {
                Ok(i) => is_first_named_id(fields, i),
                Err(e) => none_named_id(fields) && e == struct_fault(
                    "no id field: mark one with #[record(id)] or name it `id`"@,
                ),
            }
        } else {
            r == Err::<int, ExpandFault>(
                ExpandFault {
                    message: "only one field can be #[record(id)]"@,
                    field: Some(marks[1] as usize),
                },
            )
        },
    }
}

/// What a result with a position stands for.
pub open spec fn position_view(r: Result<usize, ExpandError>) -> Result<int, ExpandFault> {
    match r {
        Ok(i) => Ok(i as int),
        Err(e) => Err(e@),
    }
}

/// Picks the id field: the one marked `#[record(id)]`, or else the one named
/// `id`.
pub fn id_field(fields: &Vec<FieldInput>) -> (r: Result<usize, ExpandError>)
    ensures
        id_outcome(fields@, position_view(r)),
        r matches Ok(i) ==> i < fields@.len(),
{
    let marks = match marked(fields) {
        Ok(marks) => marks,
        Err(e) => {
            return Err(e);
        },
    };
    proof {
        lemma_marks_in_range(fields@);
    }
    if marks.len() == 1 {
        assert(positions_view(marks@)[0] == marks@[0]);
        return Ok(marks[0]);
    }
    if marks.len() > 1 {
        assert(positions_view(marks@)[1] == marks@[1]);
        return Err(
            ExpandError {
                message: "only one field can be #[record(id)]".to_owned(),
                field: Some(marks[1]),
            },
        );
    }
    match named_id(fields) {
        Some(i) => Ok(i),
        None => Err(
            ExpandError {
                message: "no id field: mark one with #[record(id)] or name it `id`".to_owned(),
                field: None,
            },
        ),
    }
}

proof fn lemma_marks_in_range(fields: Seq<FieldInput>)
    ensures
        marked_fields(fields) matches Ok(marks) ==> forall|i: int|
            0 <= i < marks.len() ==> 0 <= #[trigger] marks[i] < fields.len(),
    decreases fields.len(),
{
    if fields.len() > 0 {
        lemma_marks_in_range(fields.drop_last());
    }
}

/// The id's key in the serialized object, following serde's renaming: its own
/// `rename`, else its name under the struct's `rename_all` rule.
pub open spec fn key_outcome(
    own: Result<Option<Seq<char>>, Seq<char>>,
    rule: Option<Seq<char>>,
    name: Seq<char>,
    case: naming::Casing,
) -> Result<Seq<char>, Seq<char>> {
    match own {
        Err(m) => Err(m),
        Ok(Some(rename)) => Ok(rename),
        Ok(None) => match rule {
            None => Ok(name),
            Some(rule) => match naming::renamed(rule, name, case) {
                Some(key) => Ok(key),
                None => Err("unknown serde rename_all rule \""@ + rule + "\""@),
            },
        },
    }
}

/// What a result with a text stands for.
pub open spec fn key_view(r: Result<String, String>) -> Result<Seq<char>, Seq<char>> {
    match r {
        Ok(key) => Ok(key@),
        Err(m) => Err(m@),
    }
}

fn id_key(field: &FieldInput, rule: &Option<String>) -> (r: Result<String, String>)
    ensures
        key_view(r) == key_outcome(
            string_value(field.serde@, "rename"@),
            text_view(*rule),
            field.name@,
            naming::unicode_casing(),
        ),
        naming::all_ascii(field.name@) ==> key_view(r) == key_outcome(
            string_value(field.serde@, "rename"@),
            text_view(*rule),
            field.name@,
            naming::ascii_casing(),
        ),
{
    match serde_string_value(&field.serde, "rename") {
        Err(m) => Err(m),
        Ok(Some(rename)) => Ok(rename),
        Ok(None) => match rule {
            None => Ok(field.name.clone()),
            Some(rule) => match naming::apply_rename_rule(rule.as_str(), field.name.as_str()) {
                Some(key) => Ok(key),
                None => Err(
                    "unknown serde rename_all rule \"".to_owned().concat(rule.as_str()).concat(
                        "\"",
                    ),
                ),
            },
        },
    }
}

/// What an [`Expansion`] stands for.
pub struct ExpansionSpec {
    pub table: Seq<char>,
    pub id_index: int,
    pub id_key: Seq<char>,
}

/// What a result of the derive stands for.
pub open spec fn expansion_view(r: Result<Expansion, ExpandError>) -> Result<
    ExpansionSpec,
    ExpandFault,
> {
    match r {
        Ok(e) => Ok(ExpansionSpec { table: e.table@, id_index: e.id_index as int, id_key: e.id_key@ }),
        Err(e) => Err(e@),
    }
}

/// What the derive comes to, checked in this order: the kind of item, the
/// struct's attributes, the fields' attributes, the id field, its key.
pub open spec fn expand_outcome(
    input: StructInput,
    case: naming::Casing,
    r: Result<ExpansionSpec, ExpandFault>,
) -> bool {
    if !input.named_fields {
        r == Err::<ExpansionSpec, ExpandFault>(
            struct_fault("#[derive(Record)] only supports structs with named fields"@),
        )
    } else {
        match table_value(input.record@) {
            Err(m) => r == Err::<ExpansionSpec, ExpandFault>(struct_fault(m)),
            Ok(table) => match string_value(input.serde@, "rename_all"@) {
                Err(m) => r == Err::<ExpansionSpec, ExpandFault>(struct_fault(m)),
                Ok(rule) => exists|id: Result<int, ExpandFault>| #[trigger]
                    id_outcome(input.fields@, id) && match id {
                        Err(e) => r == Err::<ExpansionSpec, ExpandFault>(e),
                        Ok(i) => match key_outcome(
                            string_value(input.fields@[i].serde@, "rename"@),
                            rule,
                            input.fields@[i].name@,
                            case,
                        ) {
                            Err(m) => r == Err::<ExpansionSpec, ExpandFault>(struct_fault(m)),
                            Ok(id_key) => r == Ok::<ExpansionSpec, ExpandFault>(
                                ExpansionSpec {
                                    table: match table {
                                        Some(name) => name,
                                        None => naming::snake(input.name@, case),
                                    },
                                    id_index: i,
                                    id_key,
                                },
                            ),
                        },
                    },
            },
        }
    }
}

/// Whether the struct's name and the names of its fields are ASCII.
pub open spec fn has_ascii_names(input: StructInput) -> bool {
    &&& naming::all_ascii(input.name@)
    &&& forall|i: int|
        0 <= i < input.fields@.len() ==> naming::all_ascii((#[trigger] input.fields@[i]).name@)
}

/// Decides what `#[derive(Record)]` generates for a struct. Where its names
/// are ASCII, case is ASCII case.
pub fn expand(input: &StructInput) -> (r: Result<Expansion, ExpandError>)
    ensures
        expand_outcome(*input, naming::unicode_casing(), expansion_view(r)),
        has_ascii_names(*input) ==> expand_outcome(
            *input,
            naming::ascii_casing(),
            expansion_view(r),
        ),
{
    if !input.named_fields {
        return Err(
            ExpandError {
                message: "#[derive(Record)] only supports structs with named fields".to_owned(),
                field: None,
            },
        );
    }
    let table = match table_attribute(&input.record) {
        Ok(Some(name)) => name,
        Ok(None) => naming::to_snake_case(input.name.as_str()),
        Err(message) => {
            return Err(ExpandError { message, field: None });
        },
    };
    let rename_all = match serde_string_value(&input.serde, "rename_all") {
        Ok(rule) => rule,
        Err(message) => {
            return Err(ExpandError { message, field: None });
        },
    };
    let picked = id_field(&input.fields);
    assert(id_outcome(input.fields@, position_view(picked)));
    let index = match picked {
        Ok(i) => i,
        Err(e) => {
            return Err(e);
        },
    };
    let key = id_key(&input.fields[index], &rename_all);
    match key {
        Ok(id_key) => Ok(Expansion { table, id_index: index, id_key }),
        Err(message) => Err(ExpandError { message, field: None }),
    }
}

/// Items of `#[serde(...)]` that can all be parsed and of which none gives `key`
/// one name per direction.
pub open spec fn gives_one_name(metas: Seq<SerdeMeta>, key: Seq<char>) -> bool {
    forall|j: int|
        0 <= j < metas.len() ==> match #[trigger] metas[j] {
            SerdeMeta::Invalid(_) => false,
            SerdeMeta::List { name } => name@ != key,
            _ => true,
        }
}

/// The item is `key = "..."`.
pub open spec fn gives_string(meta: SerdeMeta, key: Seq<char>) -> bool {
    meta matches SerdeMeta::NameValue { name, value } && name@ == key && value is Some
}

/// `key = "value"` is found wherever it stands among the items; of several the
/// last counts, and without one there is no value.
pub proof fn law_last_string_counts(metas: Seq<SerdeMeta>, key: Seq<char>, i: int)
    requires
        gives_one_name(metas, key),
        forall|j: int| i < j < metas.len() ==> !gives_string(#[trigger] metas[j], key),
        i == -1 || (0 <= i < metas.len() && gives_string(metas[i], key)),
    ensures
        i == -1 ==> string_value(metas, key) == Ok::<Option<Seq<char>>, Seq<char>>(None),
        i >= 0 ==> (metas[i] matches SerdeMeta::NameValue { name: _, value: Some(v) } && string_value(
            metas,
            key,
        ) == Ok::<Option<Seq<char>>, Seq<char>>(Some(v@))),
    decreases metas.len(),
{
    if metas.len() > 0 {
        let rest = metas.drop_last();
        let n = metas.len() - 1;
        assert(metas.last() == metas[n]);
        assert forall|j: int| 0 <= j < rest.len() implies match #[trigger] rest[j] {
            SerdeMeta::Invalid(_) => false,
            SerdeMeta::List { name } => name@ != key,
            _ => true,
        } by {
            assert(rest[j] == metas[j]);
        }
        if i == n {
            lemma_string_is_ok(rest, key);
        } else {
            assert forall|j: int| i < j < rest.len() implies !gives_string(
                #[trigger] rest[j],
                key,
            ) by {
                assert(rest[j] == metas[j]);
            }
            if i >= 0 {
                assert(rest[i] == metas[i]);
            }
            law_last_string_counts(rest, key, i);
            assert(!gives_string(metas[n], key));
        }
    }
}

proof fn lemma_string_is_ok(metas: Seq<SerdeMeta>, key: Seq<char>)
    requires
        gives_one_name(metas, key),
    ensures
        string_value(metas, key) is Ok,
    decreases metas.len(),
{
    if metas.len() > 0 {
        let rest = metas.drop_last();
        assert(metas.last() == metas[metas.len() - 1]);
        assert forall|j: int| 0 <= j < rest.len() implies match #[trigger] rest[j] {
            SerdeMeta::Invalid(_) => false,
            SerdeMeta::List { name } => name@ != key,
            _ => true,
        } by {
            assert(rest[j] == metas[j]);
        }
        lemma_string_is_ok(rest, key);
    }
}

/// The first item that cannot be parsed, or that gives `key` one name per
/// direction, is the error.
pub proof fn law_split_names_are_refused(metas: Seq<SerdeMeta>, key: Seq<char>, bad: int)
    requires
        0 <= bad < metas.len(),
        gives_one_name(metas.take(bad), key),
    ensures
        metas[bad] matches SerdeMeta::Invalid(m) ==> string_value(metas, key) == Err::<
            Option<Seq<char>>,
            Seq<char>,
        >(m@),
        metas[bad] matches SerdeMeta::List { name } ==> name@ == key ==> string_value(metas, key)
            == Err::<Option<Seq<char>>, Seq<char>>(
            "#[derive(Record)] needs the same name for serialize and deserialize; use `"@ + key
                + " = \"...\"`"@,
        ),
{
    lemma_string_is_ok(metas.take(bad), key);
    assert(metas.take(bad + 1).drop_last() =~= metas.take(bad));
    assert(metas.take(bad + 1).last() == metas[bad]);
    if string_value(metas.take(bad + 1), key) is Err {
        lemma_string_error_stays(metas, bad + 1, key);
    }
}

/// The item is `table = "..."`.
pub open spec fn names_table(meta: RecordMeta) -> bool {
    meta matches RecordMeta::Item { name, value, excess: _ } && name@ == "table"@ && value is Ok
}

/// The table is the one that `table = "..."` gives, of several the last, and
/// none is given by no items.
pub proof fn law_table_attribute(metas: Seq<RecordMeta>)
    requires
        forall|j: int| 0 <= j < metas.len() ==> names_table(#[trigger] metas[j]),
    ensures
        metas.len() == 0 ==> table_value(metas) == Ok::<Option<Seq<char>>, Seq<char>>(None),
        metas.len() > 0 ==> (metas[metas.len() - 1] matches RecordMeta::Item {
            name: _,
            value: Ok(table),
            excess: _,
        } && table_value(metas) == Ok::<Option<Seq<char>>, Seq<char>>(Some(table@))),
    decreases metas.len(),
{
    if metas.len() > 0 {
        let rest = metas.drop_last();
        assert forall|j: int| 0 <= j < rest.len() implies names_table(#[trigger] rest[j]) by {
            assert(rest[j] == metas[j]);
        }
        law_table_attribute(rest);
        assert(metas.last() == metas[metas.len() - 1]);
        assert(names_table(metas[metas.len() - 1]));
    }
}

/// The first item on the struct that is not `table = "..."` is the error.
pub proof fn law_other_struct_attributes_are_refused(metas: Seq<RecordMeta>, bad: int)
    requires
        0 <= bad < metas.len(),
        forall|j: int| 0 <= j < bad ==> names_table(#[trigger] metas[j]),
    ensures
        metas[bad] matches RecordMeta::Invalid(m) ==> table_value(metas) == Err::<
            Option<Seq<char>>,
            Seq<char>,
        >(m@),
        metas[bad] matches RecordMeta::Item { name, value, excess: _ } ==> {
            &&& name@ != "table"@ ==> table_value(metas) == Err::<Option<Seq<char>>, Seq<char>>(
                "unsupported #[record] attribute; expected `table = \"...\"`"@,
            )
            &&& name@ == "table"@ ==> (value matches Err(m) ==> table_value(metas) == Err::<
                Option<Seq<char>>,
                Seq<char>,
            >(m@))
        },
{
    let good = metas.take(bad);
    assert forall|j: int| 0 <= j < good.len() implies names_table(#[trigger] good[j]) by {
        assert(good[j] == metas[j]);
    }
    law_table_attribute(good);
    assert(metas.take(bad + 1).drop_last() =~= good);
    assert(metas.take(bad + 1).last() == metas[bad]);
    if table_value(metas.take(bad + 1)) is Err {
        lemma_table_error_stays(metas, bad + 1);
    }
}

/// The item is a bare `id`.
pub open spec fn marks_id(meta: RecordMeta) -> bool {
    meta matches RecordMeta::Item { name, value: _, excess } && name@ == "id"@ && excess is None
}

/// The field has exactly one item, which marks it as the id.
pub open spec fn is_marked(field: FieldInput) -> bool {
    field.record@.len() == 1 && marks_id(field.record@[0])
}

proof fn lemma_no_marks(fields: Seq<FieldInput>)
    requires
        forall|j: int| 0 <= j < fields.len() ==> (#[trigger] fields[j]).record@.len() == 0,
    ensures
        marked_fields(fields) == Ok::<Seq<int>, (int, Seq<char>)>(Seq::empty()),
    decreases fields.len(),
{
    if fields.len() > 0 {
        let rest = fields.drop_last();
        assert forall|j: int| 0 <= j < rest.len() implies (#[trigger] rest[j]).record@.len()
            == 0 by {
            assert(rest[j] == fields[j]);
        }
        lemma_no_marks(rest);
        assert(fields.last() == fields[fields.len() - 1]);
        assert(Seq::<int>::empty() + Seq::new(0, |i: int| fields.len() - 1) =~= Seq::<int>::empty());
    }
}

proof fn lemma_one_mark(metas: Seq<RecordMeta>)
    requires
        metas.len() == 1,
        marks_id(metas[0]),
    ensures
        id_marks(metas) == Ok::<nat, Seq<char>>(1),
{
    assert(metas.drop_last() =~= Seq::<RecordMeta>::empty());
    assert(id_marks(metas.drop_last()) == Ok::<nat, Seq<char>>(0));
    assert(metas.last() == metas[0]);
}

proof fn lemma_marks_of(fields: Seq<FieldInput>, marks: Seq<int>)
    requires
        forall|j: int|
            0 <= j < fields.len() ==> (#[trigger] fields[j]).record@.len() == 0 || is_marked(
                fields[j],
            ),
        forall|a: int, b: int| 0 <= a < b < marks.len() ==> marks[a] < marks[b],
        forall|a: int|
            0 <= a < marks.len() ==> 0 <= #[trigger] marks[a] < fields.len() && is_marked(
                fields[marks[a]],
            ),
        forall|j: int|
            0 <= j < fields.len() && is_marked(#[trigger] fields[j]) ==> marks.contains(j),
    ensures
        marked_fields(fields) == Ok::<Seq<int>, (int, Seq<char>)>(marks),
    decreases fields.len(),
{
    if fields.len() == 0 {
        if marks.len() > 0 {
            assert(0 <= marks[0] < fields.len());
        }
        assert(marks =~= Seq::<int>::empty());
    } else {
        let rest = fields.drop_last();
        let n = fields.len() - 1;
        assert(fields.last() == fields[n]);
        assert forall|j: int| 0 <= j < rest.len() implies (#[trigger] rest[j]).record@.len() == 0
            || is_marked(rest[j]) by {
            assert(rest[j] == fields[j]);
        }
        if is_marked(fields[n]) {
            assert(marks.contains(n));
            let k = marks.index_of(n);
            assert(k == marks.len() - 1) by {
                if k < marks.len() - 1 {
                    assert(marks[k] < marks[marks.len() - 1]);
                    assert(marks[marks.len() - 1] < fields.len());
                }
            }
            let before = marks.drop_last();
            assert forall|a: int| 0 <= a < before.len() implies 0 <= #[trigger] before[a]
                < rest.len() && is_marked(rest[before[a]]) by {
                assert(marks[a] < marks[k]);
                assert(is_marked(fields[marks[a]]));
            }
            assert forall|j: int| 0 <= j < rest.len() && is_marked(
                #[trigger] rest[j],
            ) implies before.contains(j) by {
                assert(is_marked(fields[j]));
                assert(marks.contains(j));
                let a = marks.index_of(j);
                assert(before[a] == j);
            }
            lemma_marks_of(rest, before);
            lemma_one_mark(fields[n].record@);
            assert(before + Seq::new(1, |i: int| fields.len() - 1) =~= marks);
        } else {
            assert(fields[n].record@.len() == 0);
            assert forall|a: int| 0 <= a < marks.len() implies 0 <= #[trigger] marks[a]
                < rest.len() && is_marked(rest[marks[a]]) by {
                assert(is_marked(fields[marks[a]]));
                assert(marks[a] != n);
            }
            assert forall|j: int| 0 <= j < rest.len() && is_marked(
                #[trigger] rest[j],
            ) implies marks.contains(j) by {
                assert(is_marked(fields[j]));
            }
            lemma_marks_of(rest, marks);
            assert(marks + Seq::new(0, |i: int| fields.len() - 1) =~= marks);
        }
    }
}

/// The field that is marked `#[record(id)]` is the id, wherever it stands and
/// whatever it is called.
pub proof fn law_marked_field_is_the_id(
    fields: Seq<FieldInput>,
    i: int,
    r: Result<int, ExpandFault>,
)
    requires
        id_outcome(fields, r),
        0 <= i < fields.len(),
        is_marked(fields[i]),
        forall|j: int| 0 <= j < fields.len() && j != i ==> (#[trigger] fields[j]).record@.len() == 0,
    ensures
        r == Ok::<int, ExpandFault>(i),
{
    let marks = seq![i];
    assert forall|j: int| 0 <= j < fields.len() && is_marked(
        #[trigger] fields[j],
    ) implies marks.contains(j) by {
        assert(marks[0] == i);
    }
    assert forall|j: int| 0 <= j < fields.len() implies (#[trigger] fields[j]).record@.len() == 0
        || is_marked(fields[j]) by {}
    lemma_marks_of(fields, marks);
}

/// Without a mark the first field named `id` is the id, and without one there is
/// none.
pub proof fn law_field_named_id_is_the_id(fields: Seq<FieldInput>, r: Result<int, ExpandFault>)
    requires
        id_outcome(fields, r),
        forall|j: int| 0 <= j < fields.len() ==> (#[trigger] fields[j]).record@.len() == 0,
    ensures
        forall|i: int|
            0 <= i < fields.len() && (#[trigger] fields[i]).name@ == seq!['i', 'd'] && (forall|
                j: int,
            |
                0 <= j < i ==> (#[trigger] fields[j]).name@ != seq!['i', 'd']) ==> r == Ok::<
                int,
                ExpandFault,
            >(i),
        (forall|j: int|
            0 <= j < fields.len() ==> (#[trigger] fields[j]).name@ != seq!['i', 'd']) ==> r
            == Err::<int, ExpandFault>(
            ExpandFault {
                message: "no id field: mark one with #[record(id)] or name it `id`"@,
                field: None,
            },
        ),
{
    reveal_strlit("id");
    assert("id"@ =~= seq!['i', 'd']);
    lemma_no_marks(fields);
    assert forall|i: int|
        0 <= i < fields.len() && (#[trigger] fields[i]).name@ == seq!['i', 'd'] && (forall|j: int|
            0 <= j < i ==> (#[trigger] fields[j]).name@ != seq!['i', 'd']) implies r == Ok::<
        int,
        ExpandFault,
    >(i) by {
        match r {
            Ok(k) => {
                assert(is_first_named_id(fields, k));
                if k < i {
                    assert(fields[k].name@ != seq!['i', 'd']);
                }
                if i < k {
                    assert(fields[i].name@ != "id"@);
                }
            },
            Err(_) => {
                assert(none_named_id(fields));
                assert(fields[i].name@ != "id"@);
            },
        }
    }
}

/// Of several marked fields the second is the error.
pub proof fn law_only_one_field_is_the_id(
    fields: Seq<FieldInput>,
    a: int,
    b: int,
    r: Result<int, ExpandFault>,
)
    requires
        id_outcome(fields, r),
        0 <= a < b < fields.len() <= usize::MAX,
        is_marked(fields[a]),
        is_marked(fields[b]),
        forall|j: int| 0 <= j < b && j != a ==> (#[trigger] fields[j]).record@.len() == 0,
        forall|j: int|
            b < j < fields.len() ==> (#[trigger] fields[j]).record@.len() == 0 || is_marked(
                fields[j],
            ),
    ensures
        r == Err::<int, ExpandFault>(
            ExpandFault {
                message: "only one field can be #[record(id)]"@,
                field: Some(b as usize),
            },
        ),
{
    let marks = seq![a, b];
    let first = fields.take(b + 1);
    assert forall|j: int| 0 <= j < first.len() implies (#[trigger] first[j]).record@.len() == 0
        || is_marked(first[j]) by {
        assert(first[j] == fields[j]);
    }
    assert forall|k: int| 0 <= k < marks.len() implies 0 <= #[trigger] marks[k] < first.len()
        && is_marked(first[marks[k]]) by {
        assert(first[a] == fields[a] && first[b] == fields[b]);
    }
    assert forall|j: int| 0 <= j < first.len() && is_marked(
        #[trigger] first[j],
    ) implies marks.contains(j) by {
        assert(first[j] == fields[j]);
        assert(marks[0] == a && marks[1] == b);
    }
    lemma_marks_of(first, marks);
    lemma_marks_are_added(fields, b + 1, marks);
    let all = marked_fields(fields)->Ok_0;
    assert(all.take(2)[1] == b);
}

proof fn lemma_marks_are_added(fields: Seq<FieldInput>, n: int, marks: Seq<int>)
    requires
        0 <= n <= fields.len(),
        marked_fields(fields.take(n)) == Ok::<Seq<int>, (int, Seq<char>)>(marks),
        forall|j: int|
            n <= j < fields.len() ==> (#[trigger] fields[j]).record@.len() == 0 || is_marked(
                fields[j],
            ),
    ensures
        marked_fields(fields) matches Ok(all) && all.len() >= marks.len() && all.take(
            marks.len() as int,
        ) == marks,
    decreases fields.len() - n,
{
    if n == fields.len() {
        assert(fields.take(n) =~= fields);
        assert(marks.take(marks.len() as int) =~= marks);
    } else {
        let next = fields.take(n + 1);
        assert(next.drop_last() =~= fields.take(n));
        assert(next.last() == fields[n]);
        if is_marked(fields[n]) {
            lemma_one_mark(fields[n].record@);
        }
        let more = marked_fields(next)->Ok_0;
        lemma_marks_are_added(fields, n + 1, more);
        let all = marked_fields(fields)->Ok_0;
        assert(all.take(marks.len() as int) =~= all.take(more.len() as int).take(
            marks.len() as int,
        ));
        assert(more.take(marks.len() as int) =~= marks);
    }
}

/// The first item on a field that is not a bare `id` is the error.
pub proof fn law_other_field_attributes_are_refused(
    fields: Seq<FieldInput>,
    i: int,
    r: Result<int, ExpandFault>,
)
    requires
        id_outcome(fields, r),
        0 <= i < fields.len() <= usize::MAX,
        forall|j: int|
            0 <= j < i ==> (#[trigger] fields[j]).record@.len() == 0 || is_marked(fields[j]),
        fields[i].record@.len() > 0,
    ensures
        fields[i].record@[0] matches RecordMeta::Invalid(m) ==> r == Err::<int, ExpandFault>(
            ExpandFault { message: m@, field: Some(i as usize) },
        ),
        fields[i].record@[0] matches RecordMeta::Item { name, value: _, excess } ==> {
            &&& name@ != "id"@ ==> r == Err::<int, ExpandFault>(
                ExpandFault {
                    message: "unsupported #[record] field attribute; expected `id`"@,
                    field: Some(i as usize),
                },
            )
            &&& name@ == "id"@ ==> (excess matches Some(m) ==> r == Err::<int, ExpandFault>(
                ExpandFault { message: m@, field: Some(i as usize) },
            ))
        },
{
    let good = fields.take(i);
    lemma_marks_are_found(good);
    let metas = fields[i].record@;
    assert(metas.take(1).drop_last() =~= Seq::<RecordMeta>::empty());
    assert(id_marks(metas.take(1).drop_last()) == Ok::<nat, Seq<char>>(0));
    assert(metas.take(1).last() == metas[0]);
    if id_marks(metas.take(1)) is Err {
        lemma_marks_error_stays(metas, 1);
        assert(fields.take(i + 1).drop_last() =~= good);
        assert(fields.take(i + 1).last() == fields[i]);
        lemma_fields_error_stays(fields, i + 1);
    }
}

proof fn lemma_marks_are_found(fields: Seq<FieldInput>)
    requires
        forall|j: int|
            0 <= j < fields.len() ==> (#[trigger] fields[j]).record@.len() == 0 || is_marked(
                fields[j],
            ),
    ensures
        marked_fields(fields) is Ok,
    decreases fields.len(),
{
    if fields.len() > 0 {
        let rest = fields.drop_last();
        assert forall|j: int| 0 <= j < rest.len() implies (#[trigger] rest[j]).record@.len() == 0
            || is_marked(rest[j]) by {
            assert(rest[j] == fields[j]);
        }
        lemma_marks_are_found(rest);
        assert(fields.last() == fields[fields.len() - 1]);
        if is_marked(fields.last()) {
            lemma_one_mark(fields.last().record@);
        }
    }
}

/// The id's key is its own `rename`, else its name under the struct's rule, else
/// its name; a rule that is not known is an error.
pub proof fn law_id_key(
    rename: Seq<char>,
    rule: Seq<char>,
    name: Seq<char>,
    given: Option<Seq<char>>,
    case: naming::Casing,
    m: Seq<char>,
)
    ensures
        key_outcome(Ok(Some(rename)), given, name, case) == Ok::<Seq<char>, Seq<char>>(rename),
        key_outcome(Ok(None), None, name, case) == Ok::<Seq<char>, Seq<char>>(name),
        naming::renamed(rule, name, case) matches Some(key) ==> key_outcome(
            Ok(None),
            Some(rule),
            name,
            case,
        ) == Ok::<Seq<char>, Seq<char>>(key),
        naming::renamed(rule, name, case) is None ==> key_outcome(Ok(None), Some(rule), name, case)
            == Err::<Seq<char>, Seq<char>>("unknown serde rename_all rule \""@ + rule + "\""@),
        key_outcome(Err(m), given, name, case) == Err::<Seq<char>, Seq<char>>(m),
{
}

/// What the derive comes to for a struct with named fields whose attributes are
/// in order: the given table or else the struct's name in snake_case, the id
/// field, and its key.
pub proof fn law_expansion(
    input: StructInput,
    case: naming::Casing,
    r: Result<ExpansionSpec, ExpandFault>,
    table: Option<Seq<char>>,
    rule: Option<Seq<char>>,
    i: int,
    key: Seq<char>,
)
    requires
        expand_outcome(input, case, r),
        input.named_fields,
        table_value(input.record@) == Ok::<Option<Seq<char>>, Seq<char>>(table),
        string_value(input.serde@, seq!['r', 'e', 'n', 'a', 'm', 'e', '_', 'a', 'l', 'l']) == Ok::<
            Option<Seq<char>>,
            Seq<char>,
        >(rule),
        forall|x: Result<int, ExpandFault>| #[trigger]
            id_outcome(input.fields@, x) ==> x == Ok::<int, ExpandFault>(i),
        0 <= i < input.fields@.len(),
        key_outcome(
            string_value(input.fields@[i].serde@, seq!['r', 'e', 'n', 'a', 'm', 'e']),
            rule,
            input.fields@[i].name@,
            case,
        ) == Ok::<Seq<char>, Seq<char>>(key),
    ensures
        r == Ok::<ExpansionSpec, ExpandFault>(
            ExpansionSpec {
                table: match table {
                    Some(name) => name,
                    None => naming::snake(input.name@, case),
                },
                id_index: i,
                id_key: key,
            },
        ),
{
    reveal_strlit("rename_all");
    reveal_strlit("rename");
    assert("rename_all"@ =~= seq!['r', 'e', 'n', 'a', 'm', 'e', '_', 'a', 'l', 'l']);
    assert("rename"@ =~= seq!['r', 'e', 'n', 'a', 'm', 'e']);
}

/// What the derive refuses, in this order: anything but a struct with named
/// fields, the struct's attributes, the fields' attributes and the id field, and
/// the id's key.
pub proof fn law_expansion_errors(
    input: StructInput,
    case: naming::Casing,
    r: Result<ExpansionSpec, ExpandFault>,
    e: ExpandFault,
)
    requires
        expand_outcome(input, case, r),
    ensures
        !input.named_fields ==> r == Err::<ExpansionSpec, ExpandFault>(
            ExpandFault {
                message: "#[derive(Record)] only supports structs with named fields"@,
                field: None,
            },
        ),
        input.named_fields ==> match table_value(input.record@) {
            Err(m) => r == Err::<ExpansionSpec, ExpandFault>(
                ExpandFault { message: m, field: None },
            ),
            Ok(_) => match string_value(input.serde@, "rename_all"@) {
                Err(m) => r == Err::<ExpansionSpec, ExpandFault>(
                    ExpandFault { message: m, field: None },
                ),
                Ok(_) => (forall|x: Result<int, ExpandFault>| #[trigger]
                    id_outcome(input.fields@, x) ==> x == Err::<int, ExpandFault>(e)) ==> r
                    == Err::<ExpansionSpec, ExpandFault>(e),
            },
        },
{
}

/// The names of a struct are ASCII if its own and those of its fields are.
pub proof fn law_ascii_names(input: StructInput)
    requires
        forall|k: int| 0 <= k < input.name@.len() ==> (#[trigger] input.name@[k]) as u32 <= 127,
        forall|i: int, k: int|
            0 <= i < input.fields@.len() && 0 <= k < input.fields@[i].name@.len() ==> (
            #[trigger] input.fields@[i].name@[k]) as u32 <= 127,
    ensures
        has_ascii_names(input),
{
}

/// What results stand for: what they hold, as it is.
pub proof fn law_results_are_seen_as_they_are(
    expansion: Result<Expansion, ExpandError>,
    found: Result<Option<String>, String>,
    position: Result<usize, ExpandError>,
)
    ensures
        expansion_view(expansion) == match expansion {
            Ok(e) => Ok::<ExpansionSpec, ExpandFault>(
                ExpansionSpec {
                    table: e.table@,
                    id_index: e.id_index as int,
                    id_key: e.id_key@,
                },
            ),
            Err(e) => Err::<ExpansionSpec, ExpandFault>(
                ExpandFault { message: e.message@, field: e.field },
            ),
        },
        found_view(found) == match found {
            Ok(Some(s)) => Ok::<Option<Seq<char>>, Seq<char>>(Some(s@)),
            Ok(None) => Ok::<Option<Seq<char>>, Seq<char>>(None),
            Err(m) => Err::<Option<Seq<char>>, Seq<char>>(m@),
        },
        position_view(position) == match position {
            Ok(i) => Ok::<int, ExpandFault>(i as int),
            Err(e) => Err::<int, ExpandFault>(
                ExpandFault { message: e.message@, field: e.field },
            ),
        },
{
}

} // verus!
