use vstd::prelude::*;

verus! {

/// The typed record decoded from a document's sidecar metadata file. Every
/// field is required: a record with a field missing or of the wrong shape is
/// a decode failure, never a partially filled default.
pub struct RemarkableMetadata {
    pub created_time: String,
    pub last_modified: String,
    pub last_opened: String,
    pub last_opened_page: u32,
    pub visible_name: String,
    pub parent: String,
    pub pinned: bool,
}

/// The mathematical content of a metadata record.
pub ghost struct MetadataSnapshot {
    pub created_time: Seq<char>,
    pub last_modified: Seq<char>,
    pub last_opened: Seq<char>,
    pub last_opened_page: u32,
    pub visible_name: Seq<char>,
    pub parent: Seq<char>,
    pub pinned: bool,
}

impl View for RemarkableMetadata {
    type V = MetadataSnapshot;

    open spec fn view(&self) -> MetadataSnapshot {
        MetadataSnapshot {
            created_time: self.created_time@,
            last_modified: self.last_modified@,
            last_opened: self.last_opened@,
            last_opened_page: self.last_opened_page,
            visible_name: self.visible_name@,
            parent: self.parent@,
            pinned: self.pinned,
        }
    }
}

/// One value of a top-level JSON object field, reduced to what the
/// metadata schema can read: a nested array or object, or a number that
/// does not fit an unsigned 64-bit integer, is carried as `Other`.
pub enum JsonScalar {
    Null,
    Bool(bool),
    UInt(u64),
    Str(String),
    Other,
}

/// What a metadata file's bytes parse to as JSON: the top-level object's
/// fields in the decoder's (deterministic) order, or nothing when the
/// bytes are not a JSON object. A function of the bytes alone.
pub uninterp spec fn json_fields_of(bytes: Seq<u8>) -> Option<Seq<(String, JsonScalar)>>;

/// Relies on serde_json::from_slice and the serde_json::Value variants:
/// parsing is a function of the input bytes alone, it returns the top-level
/// object's fields in a deterministic order, and each variant is carried
/// over one for one.
#[verifier::external_body]
fn decode_object(bytes: &Vec<u8>) -> (r: Option<Vec<(String, JsonScalar)>>)
    ensures
        match r {
            Some(v) => json_fields_of(bytes@) == Some(v@),
            None => json_fields_of(bytes@) is None,
        },
{
    let v: serde_json::Value = serde_json::from_slice(bytes.as_slice()).ok()?;
    let m = match v { serde_json::Value::Object(m) => m, _ => return None };
    let mut out = Vec::new();
    for (k, val) in m {
        out.push((k, match val {
            serde_json::Value::Null => JsonScalar::Null,
            serde_json::Value::Bool(b) => JsonScalar::Bool(b),
            serde_json::Value::Number(n) => n.as_u64().map_or(JsonScalar::Other, JsonScalar::UInt),
            serde_json::Value::String(s) => JsonScalar::Str(s),
            _ => JsonScalar::Other,
        }));
    }
    Some(out)
}

/// The first field carrying the name, if any.
pub open spec fn spec_field(fields: Seq<(String, JsonScalar)>, key: Seq<char>) -> Option<JsonScalar>
    decreases fields.len(),
{
    if fields.len() == 0 {
        None
    } else if fields[0].0@ == key {
        Some(fields[0].1)
    } else {
        spec_field(fields.drop_first(), key)
    }
}

/// The metadata schema over a decoded JSON object: the seven fields are
/// all required, each with its exact shape, and the page index must fit in
/// 32 bits; anything else is a decode failure, never a partially filled
/// record.
pub open spec fn schema_of(fields: Seq<(String, JsonScalar)>) -> Option<MetadataSnapshot> {
    match (
        spec_field(fields, "createdTime"@),
        spec_field(fields, "lastModified"@),
        spec_field(fields, "lastOpened"@),
        spec_field(fields, "lastOpenedPage"@),
        spec_field(fields, "visibleName"@),
        spec_field(fields, "parent"@),
        spec_field(fields, "pinned"@),
    ) {
        (
            Some(JsonScalar::Str(ct)),
            Some(JsonScalar::Str(lm)),
            Some(JsonScalar::Str(lo)),
            Some(JsonScalar::UInt(p)),
            Some(JsonScalar::Str(vn)),
            Some(JsonScalar::Str(pa)),
            Some(JsonScalar::Bool(pi)),
        ) => if p <= u32::MAX as u64 {
            Some(
                MetadataSnapshot {
                    created_time: ct@,
                    last_modified: lm@,
                    last_opened: lo@,
                    last_opened_page: p as u32,
                    visible_name: vn@,
                    parent: pa@,
                    pinned: pi,
                },
            )
        } else {
            None
        },
        _ => None,
    }
}

/// What a metadata file's bytes decode to: the record, exactly when the
/// bytes are a JSON object meeting the schema.
pub open spec fn metadata_of(bytes: Seq<u8>) -> Option<MetadataSnapshot> {
    match json_fields_of(bytes) {
        Some(fields) => schema_of(fields),
        None => None,
    }
}

proof fn lemma_spec_field_at(fields: Seq<(String, JsonScalar)>, key: Seq<char>, i: int)
    requires
        0 <= i < fields.len(),
        fields[i].0@ == key,
        forall|k: int| 0 <= k < i ==> (#[trigger] fields[k]).0@ != key,
    ensures
        spec_field(fields, key) == Some(fields[i].1),
    decreases i,
{
    if i > 0 {
        assert(fields.drop_first()[i - 1] == fields[i]);
        assert forall|k: int| 0 <= k < i - 1 implies (#[trigger] fields.drop_first()[k]).0@ != key by {
            assert(fields.drop_first()[k] == fields[k + 1]);
        }
        lemma_spec_field_at(fields.drop_first(), key, i - 1);
    }
}

proof fn lemma_spec_field_none(fields: Seq<(String, JsonScalar)>, key: Seq<char>)
    requires
        forall|k: int| 0 <= k < fields.len() ==> (#[trigger] fields[k]).0@ != key,
    ensures
        spec_field(fields, key) is None,
    decreases fields.len(),
{
    if fields.len() > 0 {
        assert forall|k: int| 0 <= k < fields.len() - 1 implies
            (#[trigger] fields.drop_first()[k]).0@ != key by {
            assert(fields.drop_first()[k] == fields[k + 1]);
        }
        lemma_spec_field_none(fields.drop_first(), key);
    }
}

/// Looks a field up by name; the first match wins.
fn find_field(fields: &Vec<(String, JsonScalar)>, key: &String) -> (r: Option<usize>)
    ensures
        match r {
            Some(i) => i < fields@.len() && spec_field(fields@, key@) == Some(fields@[i as int].1),
            None => spec_field(fields@, key@) is None,
        },
{
    let mut j: usize = 0;
    while j < fields.len()
        invariant
            j <= fields@.len(),
            forall|k: int| 0 <= k < j ==> (#[trigger] fields@[k]).0@ != key@,
        decreases fields@.len() - j,
    {
        if fields[j].0.eq(key) {
            proof {
                lemma_spec_field_at(fields@, key@, j as int);
            }
            return Some(j);
        }
        j = j + 1;
    }
    proof {
        lemma_spec_field_none(fields@, key@);
    }
    None
}

/// Reads a required string field.
fn get_str(fields: &Vec<(String, JsonScalar)>, key: &String) -> (r: Option<String>)
    ensures
        match r {
            Some(s) => spec_field(fields@, key@) matches Some(JsonScalar::Str(s0)) && s0@ == s@,
            None => !(spec_field(fields@, key@) matches Some(JsonScalar::Str(_))),
        },
{
    match find_field(fields, key) {
        Some(i) => match &fields[i].1 {
            JsonScalar::Str(s) => Some(s.clone()),
            _ => None,
        },
        None => None,
    }
}

/// Reads a required boolean field.
fn get_bool(fields: &Vec<(String, JsonScalar)>, key: &String) -> (r: Option<bool>)
    ensures
        match r {
            Some(b) => spec_field(fields@, key@) == Some(JsonScalar::Bool(b)),
            None => !(spec_field(fields@, key@) matches Some(JsonScalar::Bool(_))),
        },
{
    match find_field(fields, key) {
        Some(i) => match &fields[i].1 {
            JsonScalar::Bool(b) => Some(*b),
            _ => None,
        },
        None => None,
    }
}

/// Reads a required page-index field: an unsigned integer that fits 32 bits.
fn get_page(fields: &Vec<(String, JsonScalar)>, key: &String) -> (r: Option<u32>)
    ensures
        match r {
            Some(p) => spec_field(fields@, key@) == Some(JsonScalar::UInt(p as u64)),
            None => !(spec_field(fields@, key@) matches Some(JsonScalar::UInt(u))
                && u <= u32::MAX as u64),
        },
{
    match find_field(fields, key) {
        Some(i) => match &fields[i].1 {
            JsonScalar::UInt(u) => if *u <= u32::MAX as u64 {
                Some(*u as u32)
            } else {
                None
            },
            _ => None,
        },
        None => None,
    }
}

/// Decodes a metadata file's bytes against the schema: the bytes must be a
/// JSON object carrying all seven required fields with their required
/// shapes; anything else yields no record.
pub fn decode_metadata(bytes: &Vec<u8>) -> (r: Option<RemarkableMetadata>)
    ensures
        match r {
            Some(m) => metadata_of(bytes@) == Some(m@),
            None => metadata_of(bytes@) is None,
        },
{
    let fields = match decode_object(bytes) {
        Some(f) => f,
        None => {
            return None;
        },
    };
    let created_time = match get_str(&fields, &("createdTime".to_owned())) {
        Some(s) => s,
        None => {
            return None;
        },
    };
    let last_modified = match get_str(&fields, &("lastModified".to_owned())) {
        Some(s) => s,
        None => {
            return None;
        },
    };
    let last_opened = match get_str(&fields, &("lastOpened".to_owned())) {
        Some(s) => s,
        None => {
            return None;
        },
    };
    let last_opened_page = match get_page(&fields, &("lastOpenedPage".to_owned())) {
        Some(p) => p,
        None => {
            return None;
        },
    };
    let visible_name = match get_str(&fields, &("visibleName".to_owned())) {
        Some(s) => s,
        None => {
            return None;
        },
    };
    let parent = match get_str(&fields, &("parent".to_owned())) {
        Some(s) => s,
        None => {
            return None;
        },
    };
    let pinned = match get_bool(&fields, &("pinned".to_owned())) {
        Some(b) => b,
        None => {
            return None;
        },
    };
    Some(RemarkableMetadata {
        created_time,
        last_modified,
        last_opened,
        last_opened_page,
        visible_name,
        parent,
        pinned,
    })
}

} // verus!
