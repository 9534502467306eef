use diskdeck::developer::{
    analyze, build_report, DeepFinding, DeveloperKind, DeveloperSection, DockerBreakdown, DockerDetail,
    EvidenceTier, RebuildCost,
};
use diskdeck::rules::{Action, Rec, Tier};

fn rec(id: &str, bytes: i64, tier: Tier) -> Rec {
    Rec {
        id: id.to_string(),
        title: id.to_string(),
        path: b"fixture".to_vec(),
        display: "~/fixture".to_string(),
        bytes,
        tier,
        desc: "fixture",
        restore: "fixture",
        action: Action::Trash,
        command: None,
        allow_trash: true,
        allow_delete: true,
        note: String::new(),
        estimate: false,
    }
}

fn rec_at(id: &str, path: &str, bytes: i64, tier: Tier, command: Option<&'static str>, estimate: bool) -> Rec {
    let mut value = rec(id, bytes, tier);
    value.path = path.as_bytes().to_vec();
    value.display = path.to_string();
    value.command = command;
    value.estimate = estimate;
    value
}

#[test]
fn rebuild_cost_labels_are_visible_words() {
    assert_eq!(RebuildCost::QuickRegeneration.label(), "Quick regeneration");
    assert_eq!(RebuildCost::LargeDownload.label(), "Large download");
    assert_eq!(RebuildCost::ManualSetup.label(), "Manual setup");
}

#[test]
fn report_preserves_rule_evidence_and_section_order() {
    let report = build_report(
        &[
            rec_at("go-buildcache", "/fixture/go-build", 30, Tier::Safe, Some("go clean -cache"), false),
            rec_at("npm-cache", "/fixture/npm", 50, Tier::Safe, Some("npm cache clean --force"), false),
            rec_at("nm-1", "/fixture/project/node_modules", 100, Tier::Caution, None, false),
            rec_at("xcode-archives", "/fixture/Archives", 200, Tier::Caution, None, false),
            rec_at(
                "docker-prune",
                "/fixture/Docker",
                500,
                Tier::Safe,
                Some("docker image prune -a -f && docker builder prune -a -f"),
                true,
            ),
        ],
        DockerBreakdown::default(),
    );
    let sections: Vec<DeveloperSection> = report.sections.iter().map(|section| section.section).collect();
    assert_eq!(
        sections,
        vec![
            DeveloperSection::Docker,
            DeveloperSection::Xcode,
            DeveloperSection::Projects,
            DeveloperSection::PackageStores,
            DeveloperSection::BuildTooling,
        ]
    );
    assert_eq!(report.measured_bytes, 880);

    let docker = &report.sections[0].findings[0];
    assert_eq!(docker.rebuild_cost, RebuildCost::LargeDownload);
    assert_eq!(docker.evidence.source_rec_id.as_deref(), Some("docker-prune"));
    assert_eq!(docker.evidence.tier, Some(EvidenceTier::Safe));
    assert!(docker.evidence.estimated);
    assert_eq!(docker.evidence.command, Some("docker image prune -a -f && docker builder prune -a -f"));

    let archive = &report.sections[1].findings[0];
    assert_eq!(archive.rebuild_cost, RebuildCost::ManualSetup);
    assert_eq!(archive.evidence.tier, Some(EvidenceTier::Caution));
    assert!(!archive.evidence.explanation.is_empty());
    assert!(!archive.evidence.recovery.is_empty());
}

#[test]
fn exact_and_nested_paths_are_visible_but_counted_once() {
    let report = build_report(
        &[
            rec_at("xcode-derived", "/fixture/project", 100, Tier::Safe, None, false),
            rec_at("nm-1", "/fixture/project/node_modules", 40, Tier::Caution, None, false),
            rec_at("nm-2", "/fixture/project/node_modules", 40, Tier::Caution, None, false),
        ],
        DockerBreakdown::default(),
    );
    assert_eq!(report.measured_bytes, 100);
    let nested: Vec<&DeepFinding> = report
        .sections
        .iter()
        .flat_map(|section| &section.findings)
        .filter(|finding| !finding.counted)
        .collect();
    assert_eq!(nested.len(), 2);
    assert!(nested.iter().all(|finding| finding.evidence.overlap.is_some()));
    assert_eq!(nested[0].evidence.overlap.as_deref(), Some("Included in /fixture/project"));
}

#[test]
fn docker_inside_vm_details_never_inflate_measured_total() {
    let docker = DockerBreakdown {
        details: vec![DockerDetail {
            title: "Images".to_string(),
            bytes: 900,
            reclaimable_bytes: 500,
            rebuild_cost: RebuildCost::LargeDownload,
            counted: false,
            explanation: "Inside Docker; not added to the measured footprint.".to_string(),
        }],
        unavailable: None,
    };
    let report = build_report(&[rec_at("docker-prune", "/fixture/Docker", 1_000, Tier::Safe, None, true)], docker);
    assert_eq!(report.measured_bytes, 1_000);
    assert_eq!(report.docker.details[0].bytes, 900);
    assert!(!report.docker.details[0].counted);
    assert!(report.docker.details[0].explanation.contains("not added"));
}

#[test]
fn docker_details_without_the_note_get_it() {
    let docker = DockerBreakdown {
        details: vec![DockerDetail {
            title: "Volumes".to_string(),
            bytes: 10,
            reclaimable_bytes: 5,
            rebuild_cost: RebuildCost::ManualSetup,
            counted: true,
            explanation: "Named volumes".to_string(),
        }],
        unavailable: Some("daemon offline".to_string()),
    };
    let report = build_report(&[], docker);
    assert!(report.sections.is_empty());
    assert_eq!(report.measured_bytes, 0);
    assert!(!report.docker.details[0].counted);
    assert_eq!(report.docker.details[0].explanation, "Inside Docker; not added to the measured filesystem footprint.");
    assert_eq!(report.docker.unavailable.as_deref(), Some("daemon offline"));
}

#[test]
fn groups_developer_findings_without_ordinary_cleanup_rows() {
    let groups = analyze(&[
        rec("docker-prune", 500, Tier::Safe),
        rec("xcode-derived", 300, Tier::Safe),
        rec("sim-unavailable", 200, Tier::Safe),
        rec("nm-0", 100, Tier::Caution),
        rec("npm-cache", 50, Tier::Safe),
        rec("cargo", 40, Tier::Caution),
        rec("go-buildcache", 30, Tier::Safe),
        rec("cache-Google", 999, Tier::Safe),
        rec("trash", 999, Tier::Caution),
    ]);
    assert_eq!(groups.len(), 5);
    assert_eq!(groups[0].kind, DeveloperKind::Containers);
    assert_eq!(groups[1].kind, DeveloperKind::AppleDevelopment);
    assert_eq!(groups[1].bytes, 500);
    assert_eq!(groups[2].kind, DeveloperKind::JavaScriptProjects);
    assert_eq!(groups[2].bytes, 150);
    assert_eq!(groups[2].caution_count, 1);
    assert_eq!(groups[3].kind, DeveloperKind::PackageStores);
    assert_eq!(groups[4].kind, DeveloperKind::BuildTooling);
    assert_eq!(groups.iter().map(|group| group.bytes).sum::<i64>(), 1_220);
    assert_eq!(DeveloperKind::Containers.title(), "Containers");
    assert!(!DeveloperKind::BuildTooling.explanation().is_empty());
}

#[test]
fn findings_are_largest_first_with_stable_titles() {
    let groups = analyze(&[rec("nm-0", 20, Tier::Caution), rec("npm-cache", 40, Tier::Safe), rec("nm-1", 40, Tier::Caution)]);
    let titles: Vec<&str> = groups[0].findings.iter().map(|finding| finding.title.as_str()).collect();
    assert_eq!(titles, vec!["nm-1", "npm-cache", "nm-0"]);
}
