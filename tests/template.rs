use cpd::{BattleTextEntry, Template, TemplateEntry, TemplateRenderer};

enum TestType {
    Red,
    Blue,
}

impl TestType {
    pub fn blue(str: &str) -> TemplateEntry<TestType> {
        TemplateEntry::Typed(TestType::Blue, str.to_string())
    }

    pub fn red(str: &str) -> TemplateEntry<TestType> {
        TemplateEntry::Typed(TestType::Red, str.to_string())
    }
}

struct TestRenderer {}

impl TemplateRenderer<TestType> for TestRenderer {
    fn render(&self, type_id: &TestType, string: &str) -> String {
        match type_id {
            TestType::Blue => format!("<blue>{}</blue>", string),
            TestType::Red => format!("<red>{}</red>", string),
        }
    }
}

#[test]
fn test_renderer_is_logical() {
    let example = vec![
        TemplateEntry::text("abc"),
        TemplateEntry::Typed(TestType::Red, "other text".into()),
        TestType::blue("final text"),
        TestType::red("other text"),
    ];
    let template = Template::new(TestRenderer {});
    assert_eq!(
        template.render(&example),
        "abc<red>other text</red><blue>final text</blue><red>other text</red>"
    );
}

#[test]
fn battle_text_constructors_tag_their_text() {
    assert!(matches!(BattleTextEntry::id("Ann"), TemplateEntry::Typed(BattleTextEntry::Id, t) if t == "Ann"));
    assert!(matches!(BattleTextEntry::attack("Kick"), TemplateEntry::Typed(BattleTextEntry::Attack, t) if t == "Kick"));
    assert!(matches!(BattleTextEntry::damage("12"), TemplateEntry::Typed(BattleTextEntry::Damage, t) if t == "12"));
}

#[test]
fn join_parts_concatenates_in_order() {
    let parts = vec!["ab".to_string(), String::new(), "c".to_string()];
    assert_eq!(cpd::template::join_parts(&parts), "abc");
}
