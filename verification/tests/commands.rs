//! Jobs, settings, saved files and chapters that are translated by hand.

use koharu::config::{
    ApiInpaintingConfig, InpaintingMethod, InpaintingProvider, LocalInpaintingModel, PipelineConfig,
    RoremMixedConfig,
};
use koharu::exchange::{
    chapter_response, choice_text, export_request, import_response, ENDPOINT, EXPORT_BUSY, IMPORT_BUSY,
    NOT_JSON, NO_ANSWER,
};
use koharu::execution::RunStatus;
use koharu::fal::InpaintingApplyMode;
use koharu::identifier::{read_identifier, write_identifier};
use koharu::json::{read_json, write_json, write_pretty_json, Json};
use koharu::preferences::{
    language_choices, remember_pipeline_profiles, CredentialInput, ProviderConfig,
    ProviderPreference, ProviderPreferences, SecretChange,
};
use koharu::processing::{
    requests_inpainting, Bounds, Counter, InpaintingMask, JobId, JobState, Operation, PageWarning,
    Processing, ProcessingRequest, Progress, Scope,
};
use koharu::request::LanguageName;
use koharu::stage::{EntityId, Stage, StageTarget};
use koharu::storage::{
    check_version, decode, decode_version, encode, encode_version, order_versions, validate,
    version_of_file, version_path, BlobId, FormatError, Slot, StoredState, StoredVersion,
    HEADER_BYTES,
};
use koharu::translator::{ModelSelection, Provider};
use koharu::versions::{ensure_idle, ProjectVersion};

fn selection() -> ModelSelection {
    ModelSelection {
        provider: Provider::Local,
        model: None,
        quantization: None,
        vision: false,
        reasoning: false,
        reasoning_required: false,
    }
}

fn bounds(x: f64, y: f64, width: f64, height: f64) -> Bounds {
    let number = |value: f64| (!value.is_nan()).then(|| (value + 0.0).to_bits());
    Bounds {
        x: number(x),
        y: number(y),
        width: number(width),
        height: number(height),
    }
}

fn request(project: u128, scope: Scope, operation: Operation) -> ProcessingRequest {
    ProcessingRequest {
        project,
        scope,
        operation,
        inpainting_mask: None,
    }
}

fn stages(stages: &[Stage]) -> Operation {
    Operation::Stages {
        stages: stages.to_vec(),
    }
}

const ALL_STAGES: [Stage; 4] = [
    Stage::Detection,
    Stage::Ocr,
    Stage::Translation,
    Stage::Inpainting,
];

#[test]
fn remembers_fal_edit_profiles_independently() {
    let mut config = PipelineConfig::standard(&selection());
    config.inpainting.method = InpaintingMethod::Api;
    config.inpainting.api.provider = InpaintingProvider::Fal;
    config.inpainting.api.model = "microsoft/mai-image-2.5/edit".to_owned();
    config.inpainting.api.prompt = "Clean the page.".to_owned();
    config.inpainting.api.apply_mode = InpaintingApplyMode::Mask;
    remember_pipeline_profiles(&mut config);

    config.inpainting.api.model = "microsoft/mai-image-2.5-pro/edit".to_owned();
    config.inpainting.api.prompt = "Rebuild the page.".to_owned();
    config.inpainting.api.apply_mode = InpaintingApplyMode::FullPage;
    remember_pipeline_profiles(&mut config);

    let edit = config.processor.mai_image_2_5_edit.unwrap();
    assert_eq!(edit.prompt, "Clean the page.");
    assert_eq!(edit.apply_mode, InpaintingApplyMode::Mask);
    let pro = config.processor.mai_image_2_5_pro_edit.unwrap();
    assert_eq!(pro.prompt, "Rebuild the page.");
    assert_eq!(pro.apply_mode, InpaintingApplyMode::FullPage);
}

#[test]
fn remembers_local_profiles_and_leaves_other_providers() {
    let mut config = PipelineConfig::standard(&selection());
    config.inpainting.local_model = LocalInpaintingModel::RoremMixed(RoremMixedConfig {
        prompt: "clean".to_owned(),
        negative_prompt: "text".to_owned(),
    });
    config.inpainting.api = ApiInpaintingConfig {
        provider: InpaintingProvider::OpenRouter,
        model: "microsoft/mai-image-2.5/edit".to_owned(),
        prompt: "Clean.".to_owned(),
        apply_mode: InpaintingApplyMode::Mask,
    };
    remember_pipeline_profiles(&mut config);
    assert!(config.processor.koharu_layout_rfdetr_seg_2xl.is_some());
    assert!(config.processor.flux2_klein.is_none());
    assert_eq!(config.processor.rorem_mixed.unwrap().negative_prompt, "text");
    assert!(config.processor.mai_image_2_5_edit.is_none());
    assert!(config.processor.mai_image_2_5_pro_edit.is_none());
}

#[test]
fn retry_uses_the_original_scope_and_stages_when_selection_matches() {
    let mut processing = Processing::new();
    let original_page = EntityId(7);
    let mut original = request(1, Scope::Pages(vec![original_page]), stages(&ALL_STAGES));
    original.inpainting_mask = Some(InpaintingMask {
        page: original_page,
        png: vec![1, 2],
    });
    processing.finish(original, true);

    let selected = processing.select_request(request(
        1,
        Scope::Pages(vec![original_page]),
        stages(&ALL_STAGES),
    ));

    assert!(selected.scope.is_same(&Scope::Pages(vec![original_page])));
    assert!(selected.operation.is_same(&stages(&ALL_STAGES)));
    assert_eq!(selected.inpainting_mask.unwrap().png, [1, 2]);
    assert!(processing.resume.is_none());
}

#[test]
fn a_changed_selection_does_not_consume_an_old_retry() {
    let mut processing = Processing::new();
    processing.finish(
        request(
            1,
            Scope::Pages(vec![EntityId(7)]),
            stages(&[Stage::Translation]),
        ),
        true,
    );

    let new_page = EntityId(8);
    let selected = processing.select_request(request(
        1,
        Scope::Pages(vec![new_page]),
        stages(&[Stage::Ocr]),
    ));

    assert!(selected.scope.is_same(&Scope::Pages(vec![new_page])));
    assert!(selected.operation.is_same(&stages(&[Stage::Ocr])));
}

#[test]
fn manual_inpainting_does_not_replace_a_pipeline_retry() {
    let mut processing = Processing::new();
    let original_page = EntityId(7);
    let original = || {
        request(
            1,
            Scope::Pages(vec![original_page]),
            stages(&[Stage::Detection]),
        )
    };
    processing.finish(original(), true);
    processing.finish(
        request(
            1,
            Scope::Region {
                page: EntityId(9),
                bounds: bounds(0.0, 0.0, 1.0, 1.0),
            },
            Operation::Only {
                stage: Stage::Inpainting,
            },
        ),
        true,
    );

    let selected = processing.select_request(original());

    assert!(selected.scope.is_same(&Scope::Pages(vec![original_page])));
    assert!(selected.operation.is_same(&stages(&[Stage::Detection])));
}

#[test]
fn a_process_takes_the_mask_and_clears_the_warnings_of_its_pages() {
    let mut processing = Processing::new();
    let (page, other) = (EntityId(3), EntityId(4));
    processing.inpainting_mask = Some(InpaintingMask {
        page,
        png: vec![1, 2],
    });
    for page in [page, other] {
        processing.record_warning(1, page, warning(Stage::Inpainting, "lama", "failed"));
    }
    let inpaint = || Operation::Only {
        stage: Stage::Inpainting,
    };
    let (job, request) = processing
        .process(
            JobId(7),
            1,
            &vec![page, other],
            Scope::Pages(vec![page]),
            inpaint(),
        )
        .ok()
        .unwrap();
    assert_eq!(job.id, JobId(7));
    assert_eq!(processing.running, Some(JobId(7)));
    assert_eq!(processing.jobs.len(), 1);
    assert!(processing.inpainting_mask.is_none());
    let mask = request.inpainting_mask.as_ref().unwrap();
    assert_eq!(mask.png, [1, 2]);
    assert!(mask.is_meant_for(StageTarget::Page(page), Stage::Inpainting));
    assert!(!mask.is_meant_for(StageTarget::Page(page), Stage::Ocr));
    assert!(!mask.is_meant_for(StageTarget::Page(other), Stage::Inpainting));
    assert!(!mask.is_meant_for(StageTarget::Chapter, Stage::Inpainting));
    assert!(request.scope.is_same(&Scope::Pages(vec![page])));
    assert!(processing.warning(1, page).is_none());
    assert!(processing.warning(1, other).is_some());

    let refused = processing.process(JobId(8), 1, &vec![other], Scope::Project, inpaint());
    assert_eq!(refused.err(), Some("another process is already running"));
    assert_eq!(processing.running, Some(JobId(7)));
    assert!(processing.warning(1, other).is_some());
}

#[test]
fn a_process_continues_an_interrupted_one() {
    let mut processing = Processing::new();
    let kept = request(
        1,
        Scope::Pages(vec![EntityId(7)]),
        stages(&[Stage::Translation]),
    );
    processing.finish(kept, true);
    let (_, chosen) = processing
        .process(
            JobId(1),
            1,
            &vec![EntityId(7)],
            Scope::Pages(vec![EntityId(7)]),
            stages(&[Stage::Translation]),
        )
        .ok()
        .unwrap();
    assert!(chosen.operation.is_same(&stages(&[Stage::Translation])));
    assert!(processing.resume.is_none());
}

#[test]
fn scopes_and_operations_are_told_apart() {
    let region = |x: f64| Scope::Region {
        page: EntityId(1),
        bounds: bounds(x, 0.0, 1.0, 1.0),
    };
    assert!(region(0.0).is_same(&region(-0.0)));
    assert!(!region(f64::NAN).is_same(&region(f64::NAN)));
    assert!(!region(1.0).is_same(&region(2.0)));
    assert!(Scope::Project.is_same(&Scope::Project));
    assert!(!Scope::Pages(vec![]).is_same(&Scope::Entities(vec![])));
    assert!(Operation::Full.is_same(&Operation::Full));
    let through = Operation::Through { stage: Stage::Ocr };
    assert!(!through.is_same(&Operation::Only { stage: Stage::Ocr }));
    assert!(!through.is_same(&Operation::Through {
        stage: Stage::Detection
    }));
    assert!(requests_inpainting(&Operation::Full));
    assert!(!requests_inpainting(&through));
    assert!(requests_inpainting(&stages(&ALL_STAGES)));
    assert!(!requests_inpainting(&stages(&ALL_STAGES[..3])));
}

fn warning(stage: Stage, model: &str, message: &str) -> PageWarning {
    PageWarning {
        stage,
        model: model.to_owned(),
        message: message.to_owned(),
    }
}

#[test]
fn page_warning_is_replaced_and_cleared_by_page() {
    let mut processing = Processing::new();
    let page = EntityId(3);

    processing.record_warning(1, page, warning(Stage::Inpainting, "old", "old"));
    processing.record_warning(
        1,
        page,
        warning(Stage::Inpainting, "fal-model", "content policy"),
    );
    let kept = processing.warning(1, page).unwrap();
    assert_eq!(kept.stage, Stage::Inpainting);
    assert_eq!(kept.model, "fal-model");
    assert_eq!(kept.message, "content policy");
    assert!(processing.warning(2, page).is_none());

    processing.clear_warning(1, page);
    assert!(processing.warning(1, page).is_none());
}

#[test]
fn warnings_are_cleared_when_processing_state_is_reset() {
    let mut processing = Processing::new();
    let page = EntityId(3);
    processing.record_warning(1, page, warning(Stage::Inpainting, "lama", "failed"));

    processing.clear_warnings();

    assert!(processing.warning(1, page).is_none());
}

#[test]
fn warnings_about_pages_that_are_cleaned_again_are_cleared() {
    let pages = vec![EntityId(1), EntityId(2), EntityId(3)];
    let warned = || {
        let mut processing = Processing::new();
        for &page in &pages {
            processing.record_warning(1, page, warning(Stage::Inpainting, "lama", "failed"));
        }
        processing
    };
    let left = |processing: &Processing| {
        pages
            .iter()
            .filter(|&&page| processing.warning(1, page).is_some())
            .count()
    };
    let mut processing = warned();
    processing.clear_inpainting_warnings(1, &pages, &Scope::Project, &Operation::Full);
    assert_eq!(left(&processing), 0);
    let mut processing = warned();
    processing.clear_inpainting_warnings(
        1,
        &pages,
        &Scope::Pages(vec![EntityId(2)]),
        &Operation::Full,
    );
    assert_eq!(left(&processing), 2);
    let mut processing = warned();
    processing.clear_inpainting_warnings(
        1,
        &pages,
        &Scope::Project,
        &Operation::Only { stage: Stage::Ocr },
    );
    assert_eq!(left(&processing), 3);
    let mut processing = warned();
    processing.clear_inpainting_warnings(
        1,
        &pages,
        &Scope::Entities(vec![EntityId(2)]),
        &Operation::Full,
    );
    assert_eq!(left(&processing), 3);
    let mut processing = warned();
    processing.clear_inpainting_warnings(2, &pages, &Scope::Project, &Operation::Full);
    assert_eq!(left(&processing), 3);
}

#[test]
fn a_job_is_shown_as_it_goes_on() {
    let mut processing = Processing::new();
    let id = JobId(5);
    let begun = processing.begin(id).unwrap();
    assert_eq!(begun.state, JobState::Running);
    assert_eq!(
        processing.begin(JobId(6)).unwrap_err(),
        "another process is already running"
    );
    let mut counter = Counter {
        completed: 0,
        total: 0,
    };
    let page = StageTarget::Page(EntityId(1));
    let job = processing
        .progress(
            id,
            1,
            &mut counter,
            Progress::Started {
                pages: vec![EntityId(1)],
                stages: vec![Stage::Ocr],
                total: 3,
            },
        )
        .unwrap();
    assert_eq!((job.completed, job.total), (0, 3));
    let job = processing
        .progress(
            id,
            1,
            &mut counter,
            Progress::Loading {
                target: page,
                stage: Stage::Ocr,
                model: "manga-ocr".to_owned(),
            },
        )
        .unwrap();
    assert_eq!((job.completed, job.stage), (0, Some(Stage::Ocr)));
    assert!(processing
        .progress(
            id,
            1,
            &mut counter,
            Progress::Running {
                target: page,
                stage: Stage::Ocr,
                model: "manga-ocr".to_owned(),
            },
        )
        .is_none());
    let job = processing
        .progress(
            id,
            1,
            &mut counter,
            Progress::Skipped {
                target: StageTarget::Chapter,
                stage: Stage::Translation,
            },
        )
        .unwrap();
    assert_eq!((job.completed, job.stage), (1, Some(Stage::Ocr)));
    assert_eq!(job.model.as_deref(), Some("manga-ocr"));
    let job = processing
        .progress(
            id,
            1,
            &mut counter,
            Progress::Warning {
                target: page,
                stage: Stage::Inpainting,
                model: "lama".to_owned(),
                error: "failed".to_owned(),
            },
        )
        .unwrap();
    assert_eq!((job.completed, job.stage), (2, Some(Stage::Inpainting)));
    assert_eq!(processing.warning(1, EntityId(1)).unwrap().message, "failed");
    for completed in [3, 3] {
        let job = processing
            .progress(
                id,
                1,
                &mut counter,
                Progress::Finished {
                    target: page,
                    stage: Stage::Inpainting,
                    model: "lama".to_owned(),
                },
            )
            .unwrap();
        assert_eq!((job.completed, job.total), (completed, 3));
    }
    assert!(processing.warning(1, EntityId(1)).is_none());
    let asked = || request(1, Scope::Project, stages(&[Stage::Ocr]));
    let job = processing
        .end(id, asked(), Err("out of paper".to_owned()))
        .unwrap();
    assert_eq!(job.state, JobState::Failed);
    assert_eq!(job.error.as_deref(), Some("out of paper"));
    assert!(processing.running.is_none());
    assert!(processing.resume.is_some());
    assert!(processing.end(id, asked(), Ok(RunStatus::Completed)).is_none());
}

#[test]
fn a_job_that_is_gone_warns_of_nothing() {
    let mut processing = Processing::new();
    let mut counter = Counter {
        completed: 1,
        total: 2,
    };
    assert!(processing
        .progress(
            JobId(5),
            1,
            &mut counter,
            Progress::Warning {
                target: StageTarget::Page(EntityId(1)),
                stage: Stage::Inpainting,
                model: "lama".to_owned(),
                error: "failed".to_owned(),
            },
        )
        .is_none());
    assert_eq!(counter.completed, 2);
    assert!(processing.warning(1, EntityId(1)).is_none());
}

#[test]
fn jobs_end_as_they_ran() {
    for (result, state, resumable) in [
        (Ok(RunStatus::Completed), JobState::Finished, false),
        (Ok(RunStatus::Stopped), JobState::Stopped, true),
        (Err("failed".to_owned()), JobState::Failed, true),
    ] {
        let mut processing = Processing::new();
        processing.begin(JobId(5)).unwrap();
        let job = processing
            .end(
                JobId(5),
                request(1, Scope::Project, stages(&[Stage::Ocr])),
                result,
            )
            .unwrap();
        assert_eq!(job.state, state);
        assert_eq!(processing.resume.is_some(), resumable);
        assert!(processing.jobs.is_empty());
    }
}

#[test]
fn only_a_running_job_is_stopped() {
    let mut processing = Processing::new();
    assert!(ensure_idle(&processing).is_ok());
    processing.begin(JobId(0x0123)).unwrap();
    assert!(processing.stop_job(JobId(0x0123)).is_ok());
    assert_eq!(
        processing.stop_job(JobId(0x0124)).unwrap_err(),
        "job 00000000-0000-0000-0000-000000000124 is not running"
    );
    assert_eq!(
        ensure_idle(&processing).unwrap_err(),
        "project versions cannot be changed while processing is running"
    );
    assert_eq!(processing.ensure_idle(EXPORT_BUSY), Err(EXPORT_BUSY));
    assert_eq!(processing.ensure_idle(IMPORT_BUSY), Err(IMPORT_BUSY));
}

#[test]
fn identifiers_are_written_with_hyphens() {
    let id = 0x550e_8400_e29b_41d4_a716_4466_5544_0000;
    assert_eq!(
        write_identifier(id),
        "550e8400-e29b-41d4-a716-446655440000"
    );
    assert_eq!(JobId(id).text(), "550e8400-e29b-41d4-a716-446655440000");
    assert_eq!(
        read_identifier("550e8400-e29b-41d4-a716-446655440000"),
        Some(id)
    );
    assert_eq!(read_identifier("550e8400e29b41d4a716446655440000"), Some(id));
    assert_eq!(read_identifier("state-a"), None);
}

fn provider(provider: Provider, name: &str, key: &str) -> ProviderConfig {
    ProviderConfig {
        provider,
        name: name.to_owned(),
        key: key.to_owned(),
        settings: Json::Null,
    }
}

#[test]
fn stored_credentials_are_only_shown_to_exist() {
    let preferences = ProviderPreferences::from_config(
        vec![
            provider(Provider::Local, "Local", "local"),
            provider(Provider::OpenRouter, "OpenRouter", "openrouter"),
            provider(Provider::OpenAi, "OpenAI", "openai"),
        ],
        &vec![
            Some("unused".to_owned()),
            Some(" key ".to_owned()),
            Some("  ".to_owned()),
        ],
        &None,
    );
    assert_eq!(preferences.entries.len(), 3);
    assert!(preferences.entries[0].credential.is_none());
    assert_eq!(preferences.entries[0].config.secret_key(), None);
    assert_eq!(preferences.entries[1].name, "OpenRouter");
    assert_eq!(preferences.entries[1].config.secret_key(), Some("openrouter"));
    let shown = preferences.entries[1].credential.as_ref().unwrap();
    assert!(shown.configured && shown.value.is_none() && !shown.clear);
    assert!(!preferences.entries[2].credential.as_ref().unwrap().configured);
    assert!(!preferences.fal.configured);
    let changes = preferences.into_config();
    let changes = changes.ok().unwrap();
    assert_eq!(changes.configs.len(), 3);
    assert_eq!(changes.configs[2].name, "OpenAI");
    let keys = changes
        .secrets
        .iter()
        .map(|(key, _)| key.as_str())
        .collect::<Vec<_>>();
    assert_eq!(keys, ["openrouter", "openai", "fal"]);
    assert!(changes
        .secrets
        .iter()
        .all(|(_, change)| matches!(change, SecretChange::Keep)));
}

fn input(value: Option<&str>, clear: bool) -> CredentialInput {
    CredentialInput {
        configured: false,
        value: value.map(str::to_owned),
        clear,
    }
}

#[test]
fn credentials_are_stored_cleared_or_kept() {
    assert!(matches!(input(None, false).save(), SecretChange::Keep));
    assert!(matches!(input(Some(" \n"), false).save(), SecretChange::Delete));
    assert!(matches!(input(Some("key"), true).save(), SecretChange::Delete));
    let change = input(Some(" key "), false).save();
    assert!(matches!(change, SecretChange::Store(value) if value == " key "));
    assert!(matches!(
        CredentialInput::default().save(),
        SecretChange::Keep
    ));
}

#[test]
fn logs_do_not_show_credentials() {
    assert_eq!(
        input(Some("SECRET"), false).describe(),
        "CredentialInput { configured: false, value: Some(\"[REDACTED]\"), clear: false }"
    );
    assert_eq!(
        input(None, true).describe(),
        "CredentialInput { configured: false, value: None, clear: true }"
    );
}

#[test]
fn providers_need_the_credentials_that_fit_them() {
    let entry = |config: ProviderConfig, credential: Option<CredentialInput>| ProviderPreference {
        name: config.name.clone(),
        config,
        credential,
    };
    let preferences = |entries: Vec<ProviderPreference>| ProviderPreferences {
        entries,
        fal: input(None, false),
    };
    let missing = preferences(vec![
        entry(provider(Provider::Local, "Local", "local"), None),
        entry(provider(Provider::OpenAi, "OpenAI", "openai"), None),
        entry(
            provider(Provider::Local, "Local", "local"),
            Some(input(None, false)),
        ),
    ]);
    assert_eq!(
        missing.into_config().err().unwrap(),
        "missing credential input for openai"
    );
    let needless = preferences(vec![entry(
        provider(Provider::Local, "Local", "local"),
        Some(input(None, false)),
    )]);
    assert_eq!(
        needless.into_config().err().unwrap(),
        "local translation does not accept credentials"
    );
}

#[test]
fn languages_are_offered_with_their_tags() {
    let choices = language_choices(&vec![LanguageName {
        words: "Brazilian Portuguese".to_owned(),
        code: "pt-BR".to_owned(),
    }]);
    assert_eq!(choices.len(), 1);
    assert_eq!(choices[0].tag, "pt-BR");
    assert_eq!(choices[0].name, "Brazilian Portuguese");
}

fn blob(low: u128) -> BlobId {
    BlobId { high: 0, low }
}

fn state(blobs: Vec<BlobId>) -> StoredState {
    StoredState {
        document: 1,
        revision: 2,
        blobs,
        payload: vec![1, 2, 3],
    }
}

fn version(id: u128, created_at_ms: u64) -> StoredVersion {
    StoredVersion {
        id,
        name: "saved".to_owned(),
        created_at_ms,
        state: state(vec![]),
    }
}

#[test]
fn states_are_read_back_as_they_were_written() {
    let body = b"the state".to_vec();
    let file = encode(&state(vec![blob(1), blob(2)]), &body).unwrap();
    assert_eq!(file.len(), HEADER_BYTES + body.len());
    assert_eq!(&file[..8], b"KHRSTATE");
    assert_eq!(file[8..12], 1_u32.to_le_bytes());
    assert_eq!(file[12..20], 9_u64.to_le_bytes());
    assert_eq!(&file[20..52], blake3::hash(&body).as_bytes());
    assert_eq!(decode(&file).unwrap(), body);
    assert!(matches!(
        decode_version(&file),
        Err(FormatError::Invalid("project version header is invalid"))
    ));
    let file = encode_version(&version(3, 4), &body).unwrap();
    assert_eq!(&file[..8], b"KHRVERSN");
    assert_eq!(decode_version(&file).unwrap(), body);
    assert!(matches!(decode(&file), Err(FormatError::NotAProject)));
}

#[test]
fn damaged_files_are_refused() {
    let body = vec![7; 300];
    let file = encode(&state(vec![]), &body).unwrap();
    let with = |place: usize, value: u8| {
        let mut file = file.clone();
        file[place] = value;
        file
    };
    assert!(matches!(
        decode(&file[..51].to_vec()),
        Err(FormatError::NotAProject)
    ));
    assert!(matches!(decode(&with(0, 0)), Err(FormatError::NotAProject)));
    assert!(matches!(
        decode(&with(9, 1)),
        Err(FormatError::UnsupportedFormat(257))
    ));
    assert!(matches!(
        decode(&with(12, 0)),
        Err(FormatError::Invalid("state length is invalid"))
    ));
    assert!(matches!(
        decode(&with(19, 255)),
        Err(FormatError::Invalid("state length is invalid"))
    ));
    assert!(matches!(
        decode(&with(20, file[20].wrapping_add(1))),
        Err(FormatError::Invalid("state checksum mismatch"))
    ));
    assert!(matches!(
        decode(&with(100, 8)),
        Err(FormatError::Invalid("state checksum mismatch"))
    ));
    assert!(matches!(
        decode(&file[..file.len() - 1].to_vec()),
        Err(FormatError::Invalid("state length is invalid"))
    ));
    let file = encode_version(&version(1, 1), &body).unwrap();
    let mut longer = file.clone();
    longer.push(0);
    assert!(matches!(
        decode_version(&longer),
        Err(FormatError::Invalid("project version length is invalid"))
    ));
    let mut changed = file;
    changed[60] = 0;
    assert!(matches!(
        decode_version(&changed),
        Err(FormatError::Invalid("project version checksum mismatch"))
    ));
}

#[test]
fn blobs_stand_in_order_and_once() {
    assert!(validate(&state(vec![])).is_ok());
    assert!(validate(&state(vec![blob(3), BlobId { high: 1, low: 0 }])).is_ok());
    for blobs in [vec![blob(1), blob(1)], vec![blob(1), blob(3), blob(2)]] {
        assert!(matches!(
            validate(&state(blobs)),
            Err(FormatError::Invalid("state blob IDs are not sorted and unique"))
        ));
    }
    let mut unordered = version(1, 1);
    unordered.state.blobs = vec![blob(2), blob(1)];
    assert!(encode_version(&unordered, &vec![]).is_err());
    assert!(encode(&unordered.state, &vec![]).is_err());
}

#[test]
fn slots_take_turns() {
    assert_eq!(Slot::A.other(), Slot::B);
    assert_eq!(Slot::B.other(), Slot::A);
    assert_eq!(Slot::A.filename(), "state-a.khr");
    assert_eq!(Slot::B.filename(), "state-b.khr");
}

#[test]
fn versions_lie_under_their_identifiers() {
    let (stem, extension) = version_path(9);
    assert_eq!(stem, "00000000-0000-0000-0000-000000000009");
    assert_eq!(extension, "khr");
    let file = |is_file, extension, stem| version_of_file(is_file, extension, stem);
    assert!(matches!(file(true, Some("khr"), Some(stem.as_str())), Ok(Some(9))));
    assert!(matches!(file(false, Some("khr"), Some(stem.as_str())), Ok(None)));
    assert!(matches!(file(true, Some("tmp"), Some(stem.as_str())), Ok(None)));
    assert!(matches!(file(true, None, None), Ok(None)));
    assert!(matches!(
        file(true, Some("khr"), None),
        Err(FormatError::Invalid("project version has an invalid filename"))
    ));
    assert!(matches!(
        file(true, Some("khr"), Some("backup")),
        Err(FormatError::Invalid("project version filename is not a UUID"))
    ));
    assert!(check_version(9, &version(9, 0)).is_ok());
    assert!(matches!(
        check_version(8, &version(9, 0)),
        Err(FormatError::Invalid("project version filename and ID do not match"))
    ));
}

#[test]
fn versions_are_listed_from_the_newest() {
    let ordered = order_versions(vec![
        version(1, 10),
        version(2, 30),
        version(4, 20),
        version(5, 20),
    ]);
    let ids = ordered.iter().map(|version| version.id).collect::<Vec<_>>();
    assert_eq!(ids, [2, 5, 4, 1]);
    let listed = ProjectVersion::of(&ordered[0]);
    assert_eq!((listed.id, listed.created_at_ms, listed.revision), (2, 30, 2));
    assert_eq!(listed.name, "saved");
}

fn parse(text: &str) -> Json {
    read_json(&text.as_bytes().to_vec()).unwrap()
}

#[test]
fn exported_requests_say_what_they_are_for() {
    let request = "{\"messages\":[{\"role\":\"system\",\"content\":\"prompt\"},{\"content\":[1,2.5]}]}";
    let file = export_request("project", "7", "openrouter", Some("model"), parse(request)).unwrap();
    assert_eq!(
        write_json(&file),
        format!(
            "{{\"format\":\"koharu.chapter-translation-request\",\"version\":1,\"project_id\":\"project\",\
             \"revision\":\"7\",\"provider\":\"openrouter\",\"model\":\"model\",\"endpoint\":\"{ENDPOINT}\",\
             \"request\":{request},\"system_prompt\":\"prompt\",\"chapter_payload\":[1,2.5]}}"
        )
    );
}

#[test]
fn incomplete_requests_are_not_exported() {
    for (request, model, message) in [
        ("[]", Some("m"), "OpenRouter request did not contain messages"),
        (
            "{\"messages\":{}}",
            Some("m"),
            "OpenRouter request did not contain messages",
        ),
        (
            "{\"messages\":[]}",
            Some("m"),
            "OpenRouter request did not contain a system prompt",
        ),
        (
            "{\"messages\":[{\"content\":\"\"},{}]}",
            Some("m"),
            "OpenRouter request did not contain a chapter payload",
        ),
        (
            "{\"messages\":[{\"content\":\"\"},{\"content\":\"\"}]}",
            None,
            "OpenRouter requires a selected translation model",
        ),
    ] {
        let result = export_request("p", "1", "openrouter", model, parse(request));
        assert_eq!(result.err(), Some(message));
    }
}

#[test]
fn answers_are_found_in_files() {
    let import = |text: &str| import_response(&text.as_bytes().to_vec());
    let translations = "{\"translations\":[],\"response\":1}";
    assert_eq!(import(translations).unwrap(), translations);
    assert_eq!(import("{\"choices\":[ ]}").unwrap(), "{\"choices\":[]}");
    assert_eq!(import("{\"response\":{\"a\":null}}").unwrap(), "{\"a\":null}");
    assert_eq!(import("{\"a\":1}").unwrap_err(), NO_ANSWER);
    assert_eq!(import("[]").unwrap_err(), NO_ANSWER);
    assert_eq!(import("{").unwrap_err(), NOT_JSON);
    assert!(chapter_response(parse("{\"response\":true}")).is_some());
}

#[test]
fn the_first_choice_of_an_answer_is_read() {
    let read = |text: &str| choice_text(&parse(text));
    assert_eq!(
        read("{\"choices\":[{\"message\":{\"content\":\"a\"}},{\"message\":{\"content\":\"b\"}}]}"),
        Some("a".to_owned())
    );
    for other in [
        "{\"choices\":[]}",
        "{\"choices\":[{\"message\":{\"content\":null}}]}",
        "{\"choices\":[{\"text\":\"a\"}]}",
        "{\"translations\":[],\"choices\":[{\"message\":{\"content\":\"a\"}}]}",
        "{\"translations\":[],\"notes\":\"\"}",
        "[]",
    ] {
        assert_eq!(read(other), None, "{other}");
    }
}

#[test]
fn json_is_written_for_people() {
    assert_eq!(
        write_pretty_json(&parse("{\"a\":[1]}")),
        b"{\n  \"a\": [\n    1\n  ]\n}"
    );
}
