//! Loading FIX metadata and looking things up in it.

use babelfix::error::FixRepoError;
use babelfix::repository::{FieldBlock, FixRepository, FixVersion, MessageElement};
use babelfix::schema::constants::{constants, module_name};

const FIX42: &str = r#"<fixr:repository name="FIX.4.2" version="FIX.4.2"></fixr:repository>"#;

const FIX44: &str = r#"<?xml version="1.0" encoding="UTF-8"?>
<!-- An excerpt -->
<fixr:repository name="FIX.4.4" version="FIX.4.4">
<fixr:codeSets>
  <fixr:codeSet name="SideCodeSet">
    <fixr:code name="Cross" value="8" sort="3"/>
    <fixr:code name="Buy" value="1" sort="1"><fixr:annotation>Buy &amp; hold</fixr:annotation></fixr:code>
    <fixr:code name="Sell" value="2" sort="2"/>
    <fixr:code name="Unsorted" value="9"/>
    <fixr:code name="Sorted late" value="7" sort="2"/>
  </fixr:codeSet>
</fixr:codeSets>
<fixr:fields>
  <fixr:field id="11" name="ClOrdID" type="String"/>
  <fixr:field id="54" name="Side" type="SideCodeSet"/>
  <fixr:field id="55" name="Symbol &lt;&amp;&gt;" type="String"/>
  <fixr:field id="100" name="ExDestination" type="Exchange"/>
  <fixr:field id="555" name="NoLegs" type="NumInGroup"/>
  <fixr:field id="600" name="LegSymbol" type="String"/>
  <fixr:field id="8" name="BeginString" type="String"/>
</fixr:fields>
<fixr:components>
  <fixr:component id="1024" name="StandardHeader"><fixr:fieldRef id="8" presence="required"/></fixr:component>
  <fixr:component id="1003" name="Instrument" category="Common"><fixr:fieldRef id="55"/><fixr:componentRef id="1004"/></fixr:component>
  <fixr:component id="1004" name="Venue"><fixr:fieldRef id="100"/></fixr:component>
</fixr:components>
<fixr:groups>
  <fixr:group id="2054" name="LegOrdGrp"><fixr:numInGroup id="555"/><fixr:fieldRef id="600"/></fixr:group>
</fixr:groups>
<fixr:messages>
  <fixr:message msgType="D" name="NewOrderSingle" category="Orders"><fixr:structure>
    <fixr:componentRef id="1024"/><fixr:fieldRef id="11" presence="required"/><fixr:componentRef id="1003"/><fixr:fieldRef id="54"/>
  </fixr:structure></fixr:message>
</fixr:messages>
</fixr:repository>"#;

const FIX_LATEST: &str = r#"<fixr:repository name="FIX.Latest" version="FIX.Latest_EP274">
<fixr:fields>
  <fixr:field id="11" name="ClOrdID" type="String"/>
  <fixr:field id="555" name="NoLegs" type="NumInGroup"/>
  <fixr:field id="600" name="LegSymbol" type="String"/>
</fixr:fields>
<fixr:components>
  <fixr:component id="1005" name="InstrumentLeg"><fixr:fieldRef id="600"/></fixr:component>
</fixr:components>
<fixr:groups>
  <fixr:group id="2066" name="InstrmtLegGrp"><fixr:numInGroup id="555"/><fixr:componentRef id="1005"/></fixr:group>
</fixr:groups>
<fixr:messages>
  <fixr:message msgType="D" name="NewOrderSingle"><fixr:structure><fixr:fieldRef id="11"/></fixr:structure></fixr:message>
  <fixr:message msgType="AB" name="NewOrderMultileg"><fixr:structure><fixr:fieldRef id="11"/><fixr:groupRef id="2066"/></fixr:structure></fixr:message>
</fixr:messages>
</fixr:repository>"#;

fn load(documents: &[&str]) -> FixRepository {
  let documents = documents.iter().map(|d| d.as_bytes().to_vec()).collect();
  FixRepository::from_fix_orchestras(&documents).unwrap()
}

fn print_elements(fix: &FixVersion, element: &impl FieldBlock, depth: usize) {
  for e in element.get_elements() {
    match e {
      MessageElement::Field(field_ref) => {
        let field = fix.get_field(field_ref.field_id).unwrap();
        println!("{}Field: {}/{}", "  ".repeat(depth), field.id, field.name);
        if let Some(enum_values) = field.enum_values(fix) {
          for enum_value in enum_values.iter() {
            println!("{}Enum: {} ({})", "  ".repeat(depth + 2), enum_value.value, enum_value.name);
          }
        }
      }
      MessageElement::Component(comp_ref) => {
        let component = fix.get_component(comp_ref.component_id).unwrap();
        println!("{}ComponentRef: {}/{}", "  ".repeat(depth), component.id, component.name);
        print_elements(fix, component.as_ref(), depth + 2);
      }
      MessageElement::Group(group_ref) => {
        let group = fix.get_group(group_ref.group_id).unwrap();
        println!("{}Group: {}/{}", "  ".repeat(depth), group.id, group.name);
        print_elements(fix, group.as_ref(), depth + 1);
      }
    }
  }
}

#[test]
fn test_full_fix_orchestra() {
  let repo = load(&[FIX42, FIX44, FIX_LATEST]);

  let _fix42 = repo.get_version("FIX.4.2").unwrap();
  let fix44 = repo.get_version("FIX.4.4").unwrap();
  let fix_latest = repo.get_version("FIX.Latest").unwrap();

  // FIX5
  let new_order_single = fix_latest.get_message("D").unwrap();
  println!("==> FIX5.0 NewOrderSingle");
  print_elements(&fix_latest, &*new_order_single, 0);
  assert!(!new_order_single.is_member(&fix_latest, 555));

  let new_order_multi_leg = fix_latest.get_message("AB").unwrap();
  println!("==> FIX5.0 NewOrderMultiLeg");
  print_elements(&fix_latest, &*new_order_multi_leg, 0);
  let instrument_leg_grp = fix_latest.get_group_by_name("InstrmtLegGrp").unwrap();
  assert!(instrument_leg_grp.is_member(&fix_latest, 600));
  let instrument_leg_grp =
    fix_latest.get_group_by_num_in_group_tag(&*new_order_multi_leg, 555).unwrap();
  assert!(instrument_leg_grp.is_member(&fix_latest, 600));

  // FIX44
  let new_order_single = fix44.get_message("D").unwrap();
  println!("==> FIX.4.4 NewOrderSingle");
  print_elements(&fix44, &*new_order_single, 0);
  assert!(!new_order_single.is_member(&fix44, 555));
  assert!(new_order_single.is_member(&fix44, 100))
}

#[test]
fn one_document_is_one_version() {
  let repo = FixRepository::from_fix_orchestra(FIX44.as_bytes()).unwrap();
  assert_eq!(repo.versions.len(), 1);
  let fix = repo.get_version("FIX.4.4").unwrap();
  assert_eq!((fix.name.as_str(), fix.version.as_str()), ("FIX.4.4", "FIX.4.4"));
  assert_eq!(fix.begin_string, "FIX.4.4");
  assert!(repo.get_version("FIX.9.9").is_none());
}

#[test]
fn a_version_is_found_by_its_name() {
  let repo = load(&[FIX42, FIX_LATEST]);
  assert_eq!(repo.get_version("FIX.Latest").unwrap().version, "FIX.Latest_EP274");
  assert_eq!(repo.get_version("FIX.Latest").unwrap().begin_string, "FIXT.1.1");
  assert_eq!(repo.get_version("FIX.4.2").unwrap().begin_string, "FIX.4.2");
}

#[test]
fn a_later_document_replaces_a_version_of_the_same_name() {
  let twice = [FIX44, r#"<fixr:repository name="FIX.4.4" version="other"></fixr:repository>"#];
  let repo = load(&twice);
  assert_eq!(repo.get_version("FIX.4.4").unwrap().version, "other");
  assert!(repo.get_version("FIX.4.4").unwrap().get_message("D").is_none());
}

#[test]
fn merged_repositories_hold_both() {
  let merged = load(&[FIX42]).merge(load(&[FIX_LATEST]));
  assert!(merged.get_version("FIX.4.2").is_some());
  assert!(merged.get_version("FIX.Latest").is_some());
}

#[test]
fn codes_come_in_the_order_of_their_sort() {
  let repo = load(&[FIX44]);
  let fix = repo.get_version("FIX.4.4").unwrap();
  let side = fix.get_field(54).unwrap();
  let codes = side.enum_values(&fix).unwrap();
  let values: Vec<&str> = codes.iter().map(|c| c.value.as_str()).collect();
  // Without a number a code counts as zero; equals stay as they were listed.
  assert_eq!(values, ["9", "1", "2", "7", "8"]);
  assert!(fix.get_field(11).unwrap().enum_values(&fix).is_none());
}

#[test]
fn entities_in_attributes_are_resolved() {
  let repo = load(&[FIX44]);
  let fix = repo.get_version("FIX.4.4").unwrap();
  assert_eq!(fix.get_field(55).unwrap().name, "Symbol <&>");
}

#[test]
fn membership_reaches_through_components_but_not_into_groups() {
  let repo = load(&[FIX44, FIX_LATEST]);
  let fix = repo.get_version("FIX.4.4").unwrap();
  let order = fix.get_message("D").unwrap();
  for tag in [8, 11, 54, 55, 100] {
    assert!(order.is_member(&fix, tag), "{tag}");
    assert!(order.is_member_slow(&fix, tag), "{tag}");
  }
  assert!(!order.is_member(&fix, 600));
  let instrument = fix.get_component_by_name("Instrument").unwrap();
  assert_eq!(instrument.category.as_deref(), Some("Common"));
  assert!(instrument.members.contains(&55) && instrument.members.contains(&100));
  assert!(!instrument.members.contains(&8));

  let latest = repo.get_version("FIX.Latest").unwrap();
  let multileg = latest.get_message("AB").unwrap();
  assert_eq!(multileg.is_member(&latest, 600), multileg.is_member_slow(&latest, 600));
}

#[test]
fn fields_are_listed_in_the_order_of_the_definition() {
  let repo = load(&[FIX44]);
  let fix = repo.get_version("FIX.4.4").unwrap();
  let order = fix.get_message("D").unwrap();
  let tags: Vec<u32> = fix.get_fields(&*order).iter().map(|f| f.id).collect();
  assert_eq!(tags, [8, 11, 55, 100, 54]);
}

#[test]
fn a_group_is_listed_behind_its_number() {
  let repo = load(&[FIX_LATEST]);
  let fix = repo.get_version("FIX.Latest").unwrap();
  let multileg = fix.get_message("AB").unwrap();
  let tags: Vec<u32> = fix.get_fields(&*multileg).iter().map(|f| f.id).collect();
  assert_eq!(tags, [11, 555, 600]);
}

#[test]
fn an_entry_of_a_group_starts_with_its_first_field() {
  let repo = load(&[FIX44, FIX_LATEST]);
  for (version, name) in [("FIX.4.4", "LegOrdGrp"), ("FIX.Latest", "InstrmtLegGrp")] {
    let fix = repo.get_version(version).unwrap();
    let group = fix.get_group_by_name(name).unwrap();
    assert_eq!(group.marker_id(&fix), Some(600));
    assert_eq!(group.get_marker_tag(&fix).name, "LegSymbol");
    assert_eq!(group.num_in_group_tag, 555);
  }
}

#[test]
fn member_sets_agree_with_the_definitions() {
  let repo = load(&[FIX44, FIX_LATEST]);
  for version in ["FIX.4.4", "FIX.Latest"] {
    let fix = repo.get_version(version).unwrap();
    for tag in 0..1200 {
      for name in ["StandardHeader", "Instrument", "Venue", "InstrumentLeg"] {
        if let Some(c) = fix.get_component_by_name(name) {
          assert_eq!(c.is_member(&fix, tag), c.is_member_slow(&fix, tag), "{name} {tag}");
        }
      }
      for name in ["LegOrdGrp", "InstrmtLegGrp"] {
        if let Some(g) = fix.get_group_by_name(name) {
          let expected = tag == g.num_in_group_tag || g.is_member_slow(&fix, tag);
          assert_eq!(g.is_member(&fix, tag), expected, "{name} {tag}");
        }
      }
    }
  }
  let latest = repo.get_version("FIX.Latest").unwrap();
  let multileg = latest.get_message("AB").unwrap();
  assert!(multileg.is_member(&latest, 555) && !multileg.is_member(&latest, 600));
}

#[test]
fn a_component_that_holds_itself_is_read_to_the_end() {
  let repo = load(&[r#"<fixr:repository name="X" version="X"><fixr:components>
    <fixr:component id="1" name="A"><fixr:fieldRef id="7"/><fixr:componentRef id="2"/></fixr:component>
    <fixr:component id="2" name="B"><fixr:componentRef id="1"/><fixr:fieldRef id="8"/></fixr:component>
    </fixr:components></fixr:repository>"#]);
  let fix = repo.get_version("X").unwrap();
  let a = fix.get_component_by_name("A").unwrap();
  assert!(a.is_member(&fix, 7) && a.is_member(&fix, 8) && !a.is_member(&fix, 9));
}

fn refusal(document: &str) -> FixRepoError {
  FixRepository::from_fix_orchestra(document.as_bytes()).err().expect("should be refused")
}

fn refused_for(body: &str) -> String {
  refusal(&format!(r#"<fixr:repository name="X" version="X">{body}</fixr:repository>"#)).to_string()
}

#[test]
fn metadata_that_does_not_hang_together_is_refused() {
  assert_eq!(
    refused_for(r#"<fixr:code name="Buy" value="1"/>"#),
    "Parse error: Code without a codeset"
  );
  assert_eq!(
    refused_for(r#"<fixr:numInGroup id="555"/>"#),
    "Parse error: NumInGroup without a group"
  );
  assert_eq!(
    refused_for(r#"<fixr:fieldRef id="555"/>"#),
    "Parse error: FieldRef without a group, component, or message"
  );
  assert_eq!(
    refused_for(r#"<fixr:groupRef id="555"/>"#),
    "Parse error: GroupRef without a group, component, or message"
  );
  assert_eq!(
    refused_for(r#"<fixr:componentRef id="555"/>"#),
    "Parse error: ComponentRef without a group, component, or message"
  );
  assert_eq!(
    refused_for(r#"<fixr:group id="1" name="G"></fixr:group>"#),
    "Parse error: Unexpected end of group"
  );
  assert_eq!(
    refused_for(r#"<fixr:field id="1" name="A" type="T"><fixr:field id="2" name="B" type="T"/></fixr:field>"#),
    "Parse error: Unexpected end of field"
  );
  assert_eq!(
    refused_for(r#"<fixr:codeSet name="A"><fixr:codeSet name="B"/></fixr:codeSet>"#),
    "Parse error: Unexpected end of codeset"
  );
  assert_eq!(
    refused_for(r#"<fixr:message name="A" msgType="A"><fixr:message name="B" msgType="B"/></fixr:message>"#),
    "Parse error: Unexpected end of message"
  );
  assert_eq!(
    refused_for(
      r#"<fixr:component id="1" name="A"><fixr:group id="2" name="B"><fixr:numInGroup id="3"/></fixr:component></fixr:group>"#
    )
    .split(':')
    .next(),
    Some("XML error")
  );
}

#[test]
fn an_attribute_that_is_needed_is_asked_for() {
  assert_eq!(
    refusal(r#"<fixr:repository name="X"></fixr:repository>"#).to_string(),
    "Parse error: Missing attribute version in fixr:repository"
  );
  assert_eq!(
    refused_for(r#"<fixr:field name="A" type="T"/>"#),
    "Parse error: Missing attribute id in fixr:field"
  );
  assert_eq!(
    refused_for(r#"<fixr:field id="ten" name="A" type="T"/>"#),
    "Parse error: Missing attribute id in fixr:field"
  );
  assert_eq!(
    refused_for(r#"<fixr:message name="A"/>"#),
    "Parse error: Missing attribute msgType in fixr:message"
  );
}

#[test]
fn a_document_that_is_no_xml_is_refused() {
  assert!(matches!(refusal("<fixr:repository name=\"X\" version=\"X\"></fixr:other>"), FixRepoError::XmlError(_)));
  assert!(matches!(
    refusal("<fixr:repository name=\"X\" version=\"X\">&nonsense;</fixr:repository>"),
    FixRepoError::XmlError(_)
  ));
}

#[test]
fn errors_say_what_they_are_about() {
  assert_eq!(FixRepoError::IoError("gone".to_string()).to_string(), "IO error: gone");
  assert_eq!(FixRepoError::XmlError("open".to_string()).to_string(), "XML error: open");
  let wrapped = babelfix::Error::Repository(FixRepoError::parse_error("odd"));
  assert_eq!(wrapped.to_string(), "FIX repository error: Parse error: odd");
  assert_eq!(babelfix::Error::Io("reset".to_string()).to_string(), "I/O error: reset");
  assert_eq!(babelfix::Error::unspecified("x").to_string(), "Unspecified FIX error: x");
  assert_eq!(babelfix::Error::invalid_message("x").to_string(), "Invalid message: x");
  assert_eq!(babelfix::Error::protocol_violation("x").to_string(), "Protocol violation: x");
  assert_eq!(babelfix::Error::connection_failed("x").to_string(), "Connection failed: x");
}

#[test]
fn field_constants_come_in_the_order_of_the_tags() {
  let repo = load(&[FIX44]);
  let fix = repo.get_version("FIX.4.4").unwrap();
  let listed = constants(&fix);
  let tags: Vec<u32> = listed.iter().map(|c| c.1).collect();
  assert_eq!(tags, [8, 11, 54, 55, 100, 555, 600]);
  assert_eq!(listed[0].0, "BeginString");
  assert_eq!(module_name("FIX.4.4"), "FIX_4_4");
  assert_eq!(module_name("FIX.Latest"), "FIX_Latest");
}

#[test]
fn versions_compare_by_what_they_define() {
  let one = load(&[FIX44]).get_version("FIX.4.4").unwrap();
  let two = load(&[FIX44]).get_version("FIX.4.4").unwrap();
  let other = load(&[FIX42]).get_version("FIX.4.2").unwrap();
  assert!(one.same_as(&two));
  assert!(!one.same_as(&other));
}
