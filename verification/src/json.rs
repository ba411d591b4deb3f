//! The mathematical model of a JSON document, and of the documents that
//! describe a node of the hosts tree.

use vstd::prelude::*;

use crate::value::Number;

verus! {

/// A JSON document. An object is the map from its keys to its values, so the
/// order in which an object lists its members is no part of the model.
pub enum Json {
    Null,
    Bool(bool),
    Number(Number),
    String(Seq<char>),
    Array(Seq<Json>),
    Object(Map<Seq<char>, Json>),
}

impl Json {
    /// The value under `key`, if this is an object that has one.
    pub open spec fn get(self, key: Seq<char>) -> Option<Json> {
        match self {
            Json::Object(members) => if members.contains_key(key) {
                Some(members[key])
            } else {
                None
            },
            _ => None,
        }
    }

    /// This object with `key` set to `value`; anything but an object is left
    /// as it is.
    pub open spec fn with(self, key: Seq<char>, value: Json) -> Json {
        match self {
            Json::Object(members) => Json::Object(members.insert(key, value)),
            _ => self,
        }
    }

    /// The text under `key`, if there is one.
    pub open spec fn text(self, key: Seq<char>) -> Option<Seq<char>> {
        match self.get(key) {
            Some(Json::String(s)) => Some(s),
            _ => None,
        }
    }

    // ---- nodes of the hosts tree ----

    /// The id of a node.
    pub open spec fn id(self) -> Option<Seq<char>> {
        self.text("id"@)
    }

    /// The type of a node: `local`, `remote`, `group` or `folder`.
    pub open spec fn kind(self) -> Option<Seq<char>> {
        self.text("type"@)
    }

    /// The children of a node. A `children` member that is no array does not
    /// make its node a parent.
    pub open spec fn children(self) -> Option<Seq<Json>> {
        match self.get("children"@) {
            Some(Json::Array(items)) => Some(items),
            _ => None,
        }
    }

    /// Whether a node is switched on; a node that does not say so is off.
    pub open spec fn is_on(self) -> bool {
        self.get("on"@) == Some(Json::Bool(true))
    }

    pub open spec fn is_folder(self) -> bool {
        self.kind() == Some("folder"@)
    }

    /// A folder's own choice mode. `0`, or none, means that it has none of
    /// its own.
    pub open spec fn folder_mode(self) -> Option<u64> {
        match self.get("folder_mode"@) {
            Some(Json::Number(Number::PosInt(mode))) => if mode != 0 {
                Some(mode)
            } else {
                None
            },
            _ => None,
        }
    }

    /// A folder whose children exclude one another.
    pub open spec fn is_single_choice(self) -> bool {
        self.folder_mode() == Some(1u64)
    }

    pub open spec fn set_on(self, on: bool) -> Json {
        self.with("on"@, Json::Bool(on))
    }

    pub open spec fn set_children(self, children: Seq<Json>) -> Json {
        self.with("children"@, Json::Array(children))
    }
}

/// The keys that the tree operations read and write are pairwise different.
pub proof fn lemma_keys()
    ensures
        "on"@ != "id"@,
        "on"@ != "type"@,
        "on"@ != "children"@,
        "on"@ != "folder_mode"@,
        "children"@ != "id"@,
        "children"@ != "type"@,
        "children"@ != "folder_mode"@,
{
    reveal_strlit("on");
    reveal_strlit("id");
    reveal_strlit("type");
    reveal_strlit("children");
    reveal_strlit("folder_mode");
    assert("on"@[0] == 'o');
    assert("id"@[0] == 'i');
    assert("children"@[0] == 'c');
    assert("type"@[0] == 't');
    assert("folder_mode"@[0] == 'f');
}

/// The children of a node are smaller than the node.
pub proof fn lemma_children_smaller(node: Json)
    ensures
        node.children() is Some ==> decreases_to!(node => node.children()->0),
{
    if node.children() is Some {
        let members = node->Object_0;
        assert(decreases_to!(node => members["children"@]));
        assert(decreases_to!(members["children"@] => members["children"@]->Array_0));
    }
}

} // verus!
