//! The classes by which events are categorized.

use vstd::prelude::*;

use crate::json::Json;
#[allow(unused_imports)]
use crate::json::{lemma_list_view, list_view, JsonView};
#[allow(unused_imports)]
use crate::text::texts;

verus! {

/// The name of a category: the names of the categories that it lies in, and its own.
pub type CategoryId = Vec<String>;

/// The rule by which events belong to a category.
#[derive(Debug)]
pub struct CategorySpec {
    pub spec_type: String,
    pub regex: String,
    pub ignore_case: bool,
}

/// A class as the server keeps it in its settings.
#[derive(Debug)]
pub struct ClassSetting {
    pub name: Vec<String>,
    pub rule: CategorySpec,
}

/// What a [`CategorySpec`] stands for.
#[verifier::ext_equal]
pub struct CategorySpecView {
    pub spec_type: Seq<char>,
    pub regex: Seq<char>,
    pub ignore_case: bool,
}

impl View for CategorySpec {
    type V = CategorySpecView;

    open spec fn view(&self) -> CategorySpecView {
        CategorySpecView {
            spec_type: self.spec_type@,
            regex: self.regex@,
            ignore_case: self.ignore_case,
        }
    }
}

/// A category and its rule.
pub type ClassView = (Seq<Seq<char>>, CategorySpecView);

/// What a class stands for.
pub open spec fn class_view(class: (CategoryId, CategorySpec)) -> ClassView {
    (texts(class.0@), class.1@)
}

/// What a list of classes stands for.
pub open spec fn class_views(classes: Seq<(CategoryId, CategorySpec)>) -> Seq<ClassView> {
    classes.map_values(|c: (CategoryId, CategorySpec)| class_view(c))
}

/// The category of events that match a regular expression.
pub open spec fn class(name: Seq<Seq<char>>, regex: Seq<char>, ignore_case: bool) -> ClassView {
    (name, CategorySpecView { spec_type: "regex"@, regex, ignore_case })
}

/// The default classes.
pub open spec fn default_class_views() -> Seq<ClassView> {
    seq![
        class(seq!["Work"@], "Google Docs|libreoffice|ReText"@, false),
        class(seq!["Work"@, "Programming"@], "GitHub|Stack Overflow|BitBucket|Gitlab|vim|Spyder|kate|Ghidra|Scite"@, false),
        class(seq!["Work"@, "Programming"@, "ActivityWatch"@], "ActivityWatch|aw-"@, true),
        class(seq!["Work"@, "Image"@], "Gimp|Inkscape"@, false),
        class(seq!["Work"@, "Video"@], "Kdenlive"@, false),
        class(seq!["Work"@, "Audio"@], "Audacity"@, false),
        class(seq!["Work"@, "3D"@], "Blender"@, false),
        class(seq!["Media"@, "Games"@], "Minecraft|RimWorld"@, false),
        class(seq!["Media"@, "Video"@], "YouTube|Plex|VLC"@, false),
        class(seq!["Media"@, "Social Media"@], "reddit|Facebook|Twitter|Instagram|devRant"@, true),
        class(seq!["Media"@, "Music"@], "Spotify|Deezer"@, true),
        class(seq!["Comms"@, "IM"@], "Messenger|Telegram|Signal|WhatsApp|Rambox|Slack|Riot|Discord|Nheko"@, false),
        class(seq!["Comms"@, "Email"@], "Gmail|Thunderbird|mutt|alpine"@, false),
    ]
}

fn regex_class(
    first: &str,
    second: Option<&str>,
    third: Option<&str>,
    regex: &str,
    ignore_case: bool,
) -> (r: (CategoryId, CategorySpec))
    ensures
        class_view(r) == class(
            seq![first@] + (match second {
                Some(name) => seq![name@],
                None => Seq::empty(),
            }) + (match third {
                Some(name) => seq![name@],
                None => Seq::empty(),
            }),
            regex@,
            ignore_case,
        ),
{
    let mut name: Vec<String> = Vec::new();
    name.push(first.to_string());
    if let Some(second) = second {
        name.push(second.to_string());
    }
    if let Some(third) = third {
        name.push(third.to_string());
    }
    proof {
        assert(texts(name@) =~= seq![first@] + (match second {
            Some(name) => seq![name@],
            None => Seq::empty(),
        }) + (match third {
            Some(name) => seq![name@],
            None => Seq::empty(),
        }));
    }
    (name, CategorySpec { spec_type: "regex".to_string(), regex: regex.to_string(), ignore_case })
}

/// The default classes.
pub fn default_classes() -> (classes: Vec<(CategoryId, CategorySpec)>)
    ensures
        class_views(classes@) == default_class_views(),
{
    let mut classes: Vec<(CategoryId, CategorySpec)> = Vec::new();
    classes.push(regex_class("Work", None, None, "Google Docs|libreoffice|ReText", false));
    classes.push(regex_class("Work", Some("Programming"), None, "GitHub|Stack Overflow|BitBucket|Gitlab|vim|Spyder|kate|Ghidra|Scite", false));
    classes.push(regex_class("Work", Some("Programming"), Some("ActivityWatch"), "ActivityWatch|aw-", true));
    classes.push(regex_class("Work", Some("Image"), None, "Gimp|Inkscape", false));
    classes.push(regex_class("Work", Some("Video"), None, "Kdenlive", false));
    classes.push(regex_class("Work", Some("Audio"), None, "Audacity", false));
    classes.push(regex_class("Work", Some("3D"), None, "Blender", false));
    classes.push(regex_class("Media", Some("Games"), None, "Minecraft|RimWorld", false));
    classes.push(regex_class("Media", Some("Video"), None, "YouTube|Plex|VLC", false));
    classes.push(regex_class("Media", Some("Social Media"), None, "reddit|Facebook|Twitter|Instagram|devRant", true));
    classes.push(regex_class("Media", Some("Music"), None, "Spotify|Deezer", true));
    classes.push(regex_class("Comms", Some("IM"), None, "Messenger|Telegram|Signal|WhatsApp|Rambox|Slack|Riot|Discord|Nheko", false));
    classes.push(regex_class("Comms", Some("Email"), None, "Gmail|Thunderbird|mutt|alpine", false));
    proof {
        let wanted = default_class_views();
        assert forall|i: int| 0 <= i < wanted.len() implies #[trigger] class_view(classes@[i])
            == wanted[i] by {
            assert(class_view(classes@[i]).0 =~= wanted[i].0);
        }
        assert(class_views(classes@) =~= wanted);
    }
    classes
}

/// The texts of a list, if it holds nothing else.
pub open spec fn all_texts(items: Seq<JsonView>) -> Option<Seq<Seq<char>>>
    decreases items.len(),
{
    if items.len() == 0 {
        Some(Seq::empty())
    } else {
        match (all_texts(items.drop_last()), items.last()) {
            (Some(earlier), JsonView::Text(text)) => Some(earlier.push(text)),
            _ => None,
        }
    }
}

/// A rule that is given by the values of its parts. Case matters unless the rule says
/// otherwise.
pub open spec fn rule_of_parts(
    spec_type: Option<JsonView>,
    regex: Option<JsonView>,
    ignore_case: Option<JsonView>,
) -> Option<CategorySpecView> {
    match (spec_type, regex, ignore_case) {
        (Some(JsonView::Text(spec_type)), Some(JsonView::Text(regex)), None) => Some(
            CategorySpecView { spec_type, regex, ignore_case: false },
        ),
        (
            Some(JsonView::Text(spec_type)),
            Some(JsonView::Text(regex)),
            Some(JsonView::Bool(ignore_case)),
        ) => Some(CategorySpecView { spec_type, regex, ignore_case }),
        _ => None,
    }
}

/// The value of a name, if it is there.
pub open spec fn entry(map: Map<Seq<char>, JsonView>, name: Seq<char>) -> Option<JsonView> {
    if map.contains_key(name) {
        Some(map[name])
    } else {
        None
    }
}

/// The rule in a setting: an object, or the list of its values.
pub open spec fn rule_of(value: JsonView) -> Option<CategorySpecView> {
    match value {
        JsonView::Object(map) => rule_of_parts(
            entry(map, "type"@),
            entry(map, "regex"@),
            entry(map, "ignore_case"@),
        ),
        JsonView::Array(items) => if items.len() == 2 {
            rule_of_parts(Some(items[0]), Some(items[1]), None)
        } else if items.len() == 3 {
            rule_of_parts(Some(items[0]), Some(items[1]), Some(items[2]))
        } else {
            None
        },
        _ => None,
    }
}

/// The class with this name and rule.
pub open spec fn class_of_parts(name: JsonView, rule: JsonView) -> Option<ClassView> {
    match name {
        JsonView::Array(items) => match (all_texts(items), rule_of(rule)) {
            (Some(name), Some(rule)) => Some((name, rule)),
            _ => None,
        },
        _ => None,
    }
}

/// The class in a setting: an object, or the list of its values.
pub open spec fn class_of(value: JsonView) -> Option<ClassView> {
    match value {
        JsonView::Object(map) => match (entry(map, "name"@), entry(map, "rule"@)) {
            (Some(name), Some(rule)) => class_of_parts(name, rule),
            _ => None,
        },
        JsonView::Array(items) => if items.len() == 2 {
            class_of_parts(items[0], items[1])
        } else {
            None
        },
        _ => None,
    }
}

/// The classes in a list, if it holds nothing else.
pub open spec fn all_classes(items: Seq<JsonView>) -> Option<Seq<ClassView>>
    decreases items.len(),
{
    if items.len() == 0 {
        Some(Seq::empty())
    } else {
        match (all_classes(items.drop_last()), class_of(items.last())) {
            (Some(earlier), Some(class)) => Some(earlier.push(class)),
            _ => None,
        }
    }
}

/// The classes in the setting of a server, or the default ones if it holds none.
pub open spec fn classes_of(setting: JsonView) -> Seq<ClassView> {
    match setting {
        JsonView::Array(items) => match all_classes(items) {
            Some(classes) => classes,
            None => default_class_views(),
        },
        _ => default_class_views(),
    }
}

/// What an optional value stands for.
spec fn optional_json(value: Option<&Json>) -> Option<JsonView> {
    match value {
        Some(value) => Some(value@),
        None => None,
    }
}

fn read_texts(items: &Vec<Json>) -> (r: Option<Vec<String>>)
    ensures
        match r {
            Some(found) => all_texts(list_view(items@)) == Some(texts(found@)),
            None => all_texts(list_view(items@)) is None,
        },
{
    let ghost all = list_view(items@);
    let mut found: Vec<String> = Vec::new();
    let mut complete = true;
    let mut i: usize = 0;
    proof {
        lemma_list_view(items@);
        assert(texts(found@) =~= Seq::empty());
        assert(all.take(0) =~= Seq::empty());
    }
    while i < items.len()
        invariant
            all == list_view(items@),
            all.len() == items@.len(),
            forall|k: int| 0 <= k < items@.len() ==> #[trigger] all[k] == items@[k]@,
            i <= items.len(),
            complete ==> all_texts(all.take(i as int)) == Some(texts(found@)),
            !complete ==> all_texts(all.take(i as int)) is None,
        decreases items.len() - i,
    {
        let ghost before = texts(found@);
        proof {
            assert(all.take(i + 1).drop_last() =~= all.take(i as int));
            assert(all.take(i + 1).last() == items@[i as int]@);
        }
        match &items[i] {
            Json::Text(text) => {
                found.push(text.clone());
                proof {
                    assert(texts(found@) =~= before.push(text@));
                }
            },
            _ => {
                complete = false;
            },
        }
        i += 1;
    }
    proof {
        assert(all.take(i as int) =~= all);
    }
    if complete {
        Some(found)
    } else {
        None
    }
}

fn read_rule_parts(spec_type: Option<&Json>, regex: Option<&Json>, ignore_case: Option<&Json>) -> (r:
    Option<CategorySpec>)
    ensures
        (match r {
            Some(rule) => Some(rule@),
            None => None,
        }) == rule_of_parts(
            optional_json(spec_type),
            optional_json(regex),
            optional_json(ignore_case),
        ),
{
    let ignore_case = match ignore_case {
        None => false,
        Some(Json::Bool(value)) => *value,
        Some(_) => {
            return None;
        },
    };
    match (spec_type, regex) {
        (Some(Json::Text(spec_type)), Some(Json::Text(regex))) => Some(
            CategorySpec { spec_type: spec_type.clone(), regex: regex.clone(), ignore_case },
        ),
        _ => None,
    }
}

fn read_rule(value: &Json) -> (r: Option<CategorySpec>)
    ensures
        (match r {
            Some(rule) => Some(rule@),
            None => None,
        }) == rule_of(value@),
{
    match value {
        Json::Object(map) => read_rule_parts(
            map.get("type"),
            map.get("regex"),
            map.get("ignore_case"),
        ),
        Json::Array(items) => {
            proof {
                lemma_list_view(items@);
            }
            if items.len() == 2 {
                read_rule_parts(Some(&items[0]), Some(&items[1]), None)
            } else if items.len() == 3 {
                read_rule_parts(Some(&items[0]), Some(&items[1]), Some(&items[2]))
            } else {
                None
            }
        },
        _ => None,
    }
}

fn read_class_parts(name: &Json, rule: &Json) -> (r: Option<ClassSetting>)
    ensures
        (match r {
            Some(setting) => Some((texts(setting.name@), setting.rule@)),
            None => None,
        }) == class_of_parts(name@, rule@),
{
    match name {
        Json::Array(items) => match (read_texts(items), read_rule(rule)) {
            (Some(name), Some(rule)) => Some(ClassSetting { name, rule }),
            _ => None,
        },
        _ => None,
    }
}

fn read_class(value: &Json) -> (r: Option<ClassSetting>)
    ensures
        (match r {
            Some(setting) => Some((texts(setting.name@), setting.rule@)),
            None => None,
        }) == class_of(value@),
{
    match value {
        Json::Object(map) => match (map.get("name"), map.get("rule")) {
            (Some(name), Some(rule)) => read_class_parts(name, rule),
            _ => None,
        },
        Json::Array(items) => {
            proof {
                lemma_list_view(items@);
            }
            if items.len() == 2 {
                read_class_parts(&items[0], &items[1])
            } else {
                None
            }
        },
        _ => None,
    }
}

/// The classes in the setting of a server, or the default ones if it holds none.
pub fn classes_from_settings_json(setting: &Json) -> (classes: Vec<(CategoryId, CategorySpec)>)
    ensures
        class_views(classes@) == classes_of(setting@),
{
    let items = match setting {
        Json::Array(items) => items,
        _ => {
            return default_classes();
        },
    };
    let ghost all = list_view(items@);
    let mut classes: Vec<(CategoryId, CategorySpec)> = Vec::new();
    let mut complete = true;
    let mut i: usize = 0;
    proof {
        lemma_list_view(items@);
        assert(class_views(classes@) =~= Seq::empty());
        assert(all.take(0) =~= Seq::empty());
    }
    while i < items.len()
        invariant
            all == list_view(items@),
            all.len() == items@.len(),
            forall|k: int| 0 <= k < items@.len() ==> #[trigger] all[k] == items@[k]@,
            i <= items.len(),
            complete ==> all_classes(all.take(i as int)) == Some(class_views(classes@)),
            !complete ==> all_classes(all.take(i as int)) is None,
        decreases items.len() - i,
    {
        let ghost before = class_views(classes@);
        proof {
            assert(all.take(i + 1).drop_last() =~= all.take(i as int));
            assert(all.take(i + 1).last() == items@[i as int]@);
        }
        match read_class(&items[i]) {
            Some(setting) => {
                let class = (setting.name, setting.rule);
                classes.push(class);
                proof {
                    assert(class_views(classes@) =~= before.push(class_view(class)));
                }
            },
            None => {
                complete = false;
            },
        }
        i += 1;
    }
    proof {
        assert(all.take(i as int) =~= all);
    }
    if complete {
        classes
    } else {
        default_classes()
    }
}

/// The classes of a server: those in its setting, or the default ones if it could not be had.
pub fn get_classes(setting: Option<&Json>) -> (classes: Vec<(CategoryId, CategorySpec)>)
    ensures
        class_views(classes@) == match setting {
            Some(setting) => classes_of(setting@),
            None => default_class_views(),
        },
{
    match setting {
        Some(setting) => classes_from_settings_json(setting),
        None => default_classes(),
    }
}

/// A rule that is an object with a text under `type` and under `regex` is read as these texts. It
/// ignores case if and only if there is `true` under `ignore_case`, and it is no rule if there is
/// something else than a boolean there. Nothing else in the object matters.
pub proof fn law_rule_is_read_as_it_is_written(
    map: Map<Seq<char>, JsonView>,
    spec_type: Seq<char>,
    regex: Seq<char>,
)
    requires
        map.contains_key("type"@) && map["type"@] == JsonView::Text(spec_type),
        map.contains_key("regex"@) && map["regex"@] == JsonView::Text(regex),
    ensures
        match rule_of(JsonView::Object(map)) {
            Some(rule) => {
                &&& rule.spec_type == spec_type
                &&& rule.regex == regex
                &&& rule.ignore_case <==> map.contains_key("ignore_case"@) && map["ignore_case"@]
                    == JsonView::Bool(true)
                &&& map.contains_key("ignore_case"@) ==> map["ignore_case"@] is Bool
            },
            None => map.contains_key("ignore_case"@) && !(map["ignore_case"@] is Bool),
        },
{
}

/// What is no object with a text under `type` and under `regex` is no rule, unless it is a list.
pub proof fn law_rule_needs_its_parts(map: Map<Seq<char>, JsonView>)
    requires
        rule_of(JsonView::Object(map)) is Some,
    ensures
        map.contains_key("type"@) && map["type"@] is Text,
        map.contains_key("regex"@) && map["regex"@] is Text,
{
}

/// A text for each of the parts of a name.
pub open spec fn written_name(name: Seq<Seq<char>>) -> JsonView {
    JsonView::Array(name.map_values(|part: Seq<char>| JsonView::Text(part)))
}

/// The object that a class is written as.
pub open spec fn written_class(class: ClassView) -> JsonView {
    JsonView::Object(
        map![
            "name"@ => written_name(class.0),
            "rule"@ => JsonView::Object(
                map![
                    "type"@ => JsonView::Text(class.1.spec_type),
                    "regex"@ => JsonView::Text(class.1.regex),
                    "ignore_case"@ => JsonView::Bool(class.1.ignore_case),
                ],
            ),
        ],
    )
}

/// The list that classes are written as.
pub open spec fn written_classes(classes: Seq<ClassView>) -> JsonView {
    JsonView::Array(classes.map_values(|class: ClassView| written_class(class)))
}

proof fn lemma_texts_read_back(name: Seq<Seq<char>>)
    ensures
        all_texts(name.map_values(|part: Seq<char>| JsonView::Text(part))) == Some(name),
    decreases name.len(),
{
    let items = name.map_values(|part: Seq<char>| JsonView::Text(part));
    if name.len() == 0 {
        assert(name =~= Seq::empty());
    } else {
        lemma_texts_read_back(name.drop_last());
        assert(items.drop_last() =~= name.drop_last().map_values(
            |part: Seq<char>| JsonView::Text(part),
        ));
        assert(name.drop_last().push(name.last()) =~= name);
    }
}

proof fn lemma_class_reads_back(class: ClassView)
    ensures
        class_of(written_class(class)) == Some(class),
{
    reveal_strlit("name");
    reveal_strlit("rule");
    reveal_strlit("type");
    reveal_strlit("regex");
    reveal_strlit("ignore_case");
    assert("name"@[0] == 'n' && "rule"@[0] == 'r');
    assert("type"@[0] == 't' && "regex"@[0] == 'r' && "ignore_case"@[0] == 'i');
    lemma_texts_read_back(class.0);
}

/// Classes that are written to the setting of a server, each as an object, are read from it again
/// as they were, one for one and in order.
pub proof fn law_written_classes_read_back(classes: Seq<ClassView>)
    ensures
        classes_of(written_classes(classes)) == classes,
{
    lemma_classes_read_back(classes);
}

proof fn lemma_classes_read_back(classes: Seq<ClassView>)
    ensures
        all_classes(classes.map_values(|class: ClassView| written_class(class))) == Some(classes),
    decreases classes.len(),
{
    let items = classes.map_values(|class: ClassView| written_class(class));
    if classes.len() == 0 {
        assert(classes =~= Seq::empty());
    } else {
        lemma_classes_read_back(classes.drop_last());
        lemma_class_reads_back(classes.last());
        assert(items.drop_last() =~= classes.drop_last().map_values(
            |class: ClassView| written_class(class),
        ));
        assert(classes.drop_last().push(classes.last()) =~= classes);
    }
}

/// One entry that is no class is enough for the default classes to be taken in place of all.
pub proof fn law_one_bad_class_spoils_the_setting(items: Seq<JsonView>, i: int)
    requires
        0 <= i < items.len(),
        class_of(items[i]) is None,
    ensures
        classes_of(JsonView::Array(items)) == default_class_views(),
{
    lemma_bad_class(items, i);
}

proof fn lemma_bad_class(items: Seq<JsonView>, i: int)
    requires
        0 <= i < items.len(),
        class_of(items[i]) is None,
    ensures
        all_classes(items) is None,
    decreases items.len(),
{
    if i < items.len() - 1 {
        assert(items.drop_last()[i] == items[i]);
        lemma_bad_class(items.drop_last(), i);
    }
}

/// The name under which a client asks for the setting, made different by a random number.
pub fn setting_client_name(random_number: u32) -> (name: String)
    ensures
        name@ == "get-setting-"@ + crate::text::decimal(random_number as nat),
{
    let number = crate::text::decimal_text(random_number as u128);
    crate::text::join("get-setting-", number.as_str())
}

/// A rule may be written as the list of its values, with or without the last one, and a class as the
/// list of its name and its rule. It is read as if it were written as an object.
pub proof fn law_lists_are_read_like_objects(class: ClassView)
    ensures
        ({
            let (name, rule) = class;
            let named = written_name(name);
            let parts = seq![JsonView::Text(rule.spec_type), JsonView::Text(rule.regex)];
            let whole = parts.push(JsonView::Bool(rule.ignore_case));
            &&& class_of(JsonView::Array(seq![named, JsonView::Array(whole)])) == Some(class)
            &&& class_of(JsonView::Array(seq![named, JsonView::Array(parts)])) == Some(
                (name, CategorySpecView { ignore_case: false, ..rule }),
            )
        }),
{
    lemma_texts_read_back(class.0);
}

/// A setting that is no list of classes leaves the default ones, each of which is found by a
/// regular expression.
pub proof fn law_setting_that_is_no_list_leaves_the_defaults(setting: JsonView)
    requires
        setting !is Array,
    ensures
        classes_of(setting) == default_class_views(),
        classes_of(setting).len() == 13,
        forall|i: int|
            0 <= i < classes_of(setting).len() ==> (#[trigger] classes_of(setting)[i]).1.spec_type
                == "regex"@ && classes_of(setting)[i].0.len() > 0,
{
}

} // verus!
