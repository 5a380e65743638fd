//! Settings, schedules and runs.

use koharu::config::{
    ApiInpaintingConfig, DetectionModel, Flux2KleinConfig, InpaintingConfig, InpaintingMethod,
    InpaintingModel, InpaintingProvider, KoharuLayoutRFDetrSeg2XLConfig, LocalInpaintingModel,
    OcrConfig, OcrMethod, OcrModel, PipelineConfig, ProcessorConfig, RoremMixedConfig,
    TranslationConfig, TranslationConfigFile, TranslationProfileFile, TranslationUnitPolicy,
};
use koharu::config_file::{
    local_inpainting_model_id, restore, restore_local_inpainting_model, store, ModelName,
    PipelineFile, ProfileDefaults,
};
use koharu::execution::{validate_commit, Execution, RunStatus, SceneMark, Step};
use koharu::failure::{
    is_out_of_memory, should_retry_after_memory_pressure, ErrorKind, PipelineError,
};
use koharu::fal::{ImageEditConfig, InpaintingApplyMode};
use koharu::language::Language;
use koharu::scheduler::Scheduler;
use koharu::stage::{prerequisite, EntityId, Stage, StageSet, StageTarget};
use koharu::stage_runner::{stage_error, RunAction, RunEvent, StageOutcome, StageRun};
use koharu::stages::{
    translation_profile, translation_recovers, unloaded, ProcessorSlot, Stages,
};
use koharu::translator::{GenerationConfig, ModelSelection, Provider};

fn selection(provider: Provider, model: Option<&str>) -> ModelSelection {
    ModelSelection {
        provider,
        model: model.map(str::to_owned),
        quantization: None,
        vision: false,
        reasoning: false,
        reasoning_required: false,
    }
}

fn standard() -> PipelineConfig {
    PipelineConfig::standard(&selection(Provider::Local, None))
}

fn stored() -> PipelineFile {
    PipelineFile::standard(&selection(Provider::Local, None))
}

fn defaults() -> ProfileDefaults {
    ProfileDefaults {
        flux2_klein: Flux2KleinConfig {
            prompt: "flux".to_owned(),
        },
        rorem_mixed: RoremMixedConfig {
            prompt: "rorem".to_owned(),
            negative_prompt: "lettering".to_owned(),
        },
    }
}

fn named(model: &str) -> ModelName {
    ModelName {
        model: model.to_owned(),
    }
}

fn generation(temperature: Option<f32>) -> GenerationConfig {
    GenerationConfig {
        temperature: temperature.map(f32::to_bits),
        max_tokens: None,
        vision: None,
        reasoning: None,
    }
}

#[test]
fn defaults_select_one_processor_for_each_phase() {
    let config = standard();

    assert!(matches!(
        config.detection,
        DetectionModel::KoharuLayoutRFDetrSeg2XL(_)
    ));
    assert_eq!(config.ocr.method, OcrMethod::Local);
    assert_eq!(config.ocr.local_model, OcrModel::PaddleOcrVl1_6);
    assert_eq!(config.translation.source_language, Language::Japanese);
    assert_eq!(config.inpainting.method, InpaintingMethod::Local);
    assert!(matches!(
        config.inpainting.local_model,
        LocalInpaintingModel::LaMa {}
    ));
    assert!(matches!(
        config.inpainting.manual_model,
        LocalInpaintingModel::LaMa {}
    ));
}

#[test]
fn nothing_is_stored_for_models_at_first() {
    let config = standard();
    assert!(matches!(
        config.detection,
        DetectionModel::KoharuLayoutRFDetrSeg2XL(KoharuLayoutRFDetrSeg2XLConfig {
            text_threshold: None,
            bubble_threshold: None,
            panel_threshold: None,
        })
    ));
    assert!(config.processor.koharu_layout_rfdetr_seg_2xl.is_none());
    assert!(config.processor.flux2_klein.is_none());
    assert!(config.processor.rorem_mixed.is_none());
    assert!(config.processor.mai_image_2_5_edit.is_none());
    assert!(config.processor.mai_image_2_5_pro_edit.is_none());
}

#[test]
fn manual_remove_defaults_to_lama_independently_of_automatic_cleanup() {
    let mut config = standard();
    config.inpainting.method = InpaintingMethod::Api;

    assert!(matches!(
        config.inpainting().unwrap(),
        InpaintingModel::MaiImage2_5Edit(_)
    ));
    assert!(matches!(
        config.manual_inpainting(),
        InpaintingModel::LaMa {}
    ));
}

#[test]
fn api_inpainting_defaults_to_removing_all_visible_text() {
    let config = ApiInpaintingConfig::default();

    assert_eq!(config.apply_mode, InpaintingApplyMode::FullPage);
    assert!(config.prompt.contains("all visible text"));
    for removable in ["watermarks", "credits", "signatures", "logos"] {
        assert!(config.prompt.contains(removable), "missing {removable}");
    }
    assert!(config.prompt.contains("stylized onomatopoeia"));
    assert!(config.prompt.contains("Do not leave any text behind"));
    assert!(!config.prompt.contains("creator signatures"));
    let preserve = config.prompt.find("Preserve every speech bubble").unwrap();
    let reconstruct = config.prompt.find("reconstruct the artwork").unwrap();
    assert!(preserve < reconstruct);
}

#[test]
fn replaces_the_previous_cleanup_default_when_loading_preferences() {
    const PREVIOUS_PROMPT: &str = "Remove all visible text from the image, including dialogue, captions, sound-effect lettering, watermarks, credits, signatures, logos, and re-upload notices. Preserve every speech bubble and caption box exactly as drawn: do not remove, redraw, reshape, move, resize, recolor, or change their outlines, tails, fills, or textures. Only after preserving those containers, reconstruct the artwork and background hidden behind the removed text. Do not alter characters, panel borders, or any non-text artwork.";

    let mut config = standard();
    config.inpainting.api.prompt = PREVIOUS_PROMPT.to_owned();
    config.processor.mai_image_2_5_edit = Some(ImageEditConfig {
        prompt: PREVIOUS_PROMPT.to_owned(),
        ..ImageEditConfig::default()
    });

    let restored = restore(store(&config), &defaults()).unwrap();
    let expected = ImageEditConfig::default().prompt;
    let edit = restored.processor.mai_image_2_5_edit.as_ref().unwrap();
    assert_eq!(restored.inpainting.api.prompt, expected);
    assert_eq!(edit.prompt, expected);
    assert_eq!(
        restored.inpainting.api.apply_mode,
        InpaintingApplyMode::FullPage
    );
    assert_eq!(edit.apply_mode, InpaintingApplyMode::FullPage);
}

#[test]
fn parses_phase_keyed_processor_configuration() {
    let mut file = stored();
    file.detection = named("koharu-layout-rfdetr-seg-2xl");
    file.ocr.method = OcrMethod::Local;
    file.ocr.local_model = OcrModel::BaberuOcr;
    file.inpainting.method = InpaintingMethod::Local;
    file.inpainting.local_model = named("rorem-mixed");
    file.processor.rorem_mixed = Some(RoremMixedConfig {
        prompt: "Remove the lettering.".to_owned(),
        negative_prompt: "letters, words".to_owned(),
    });
    let config = restore(file, &defaults()).unwrap();

    assert!(matches!(
        config.detection,
        DetectionModel::KoharuLayoutRFDetrSeg2XL(_)
    ));
    assert_eq!(config.ocr.local_model, OcrModel::BaberuOcr);
    assert!(matches!(
        config.inpainting(),
        Ok(InpaintingModel::RoremMixed(config))
            if config.prompt == "Remove the lettering."
                && config.negative_prompt == "letters, words"
    ));
}

#[test]
fn missing_slots_use_defaults() {
    let config = restore(stored(), &defaults()).unwrap();
    let standard = standard();

    assert_eq!(format!("{config:?}"), format!("{standard:?}"));
}

#[test]
fn ocr_keeps_local_and_api_settings_independently() {
    let mut file = stored();
    file.ocr.method = OcrMethod::Api;
    file.ocr.local_model = OcrModel::MangaOcr;
    file.ocr.api.instructions = Some("Preserve furigana.".to_owned());
    file.ocr.api.model = ModelSelection {
        vision: true,
        ..selection(Provider::OpenRouter, Some("qwen/qwen3-vl-32b-instruct"))
    };
    file.ocr.api.generation = GenerationConfig {
        max_tokens: Some(2048),
        vision: Some(true),
        ..generation(Some(0.1))
    };
    let config = restore(file, &defaults()).unwrap();

    assert_eq!(config.ocr.method, OcrMethod::Api);
    assert_eq!(config.ocr.local_model, OcrModel::MangaOcr);
    assert_eq!(
        config.ocr.api.model.model.as_deref(),
        Some("qwen/qwen3-vl-32b-instruct")
    );
    assert_eq!(
        config.ocr.api.instructions.as_deref(),
        Some("Preserve furigana.")
    );
    assert_eq!(config.ocr.api.generation.max_tokens, Some(2048));
    config.validate().unwrap();

    let restored = restore(store(&config), &defaults()).unwrap();
    assert_eq!(
        format!("{:?}", restored.ocr),
        format!("{:?}", config.ocr)
    );
}

#[test]
fn api_ocr_rejects_providers_without_a_vision_ocr_backend() {
    let mut config = standard();
    config.ocr.method = OcrMethod::Api;
    config.ocr.api.model = ModelSelection {
        vision: true,
        reasoning: true,
        ..selection(Provider::Gemini, Some("gemini-2.5-pro"))
    };

    let error = config.validate().unwrap_err();
    assert!(error.contains("OpenAI, OpenAI-compatible, and OpenRouter"));
}

#[test]
fn parses_detection_and_generative_inpainting_options() {
    let mut file = stored();
    file.inpainting.local_model = named("flux2-klein");
    file.processor.koharu_layout_rfdetr_seg_2xl = Some(KoharuLayoutRFDetrSeg2XLConfig {
        text_threshold: Some(0.25_f32.to_bits()),
        bubble_threshold: Some(0.45_f32.to_bits()),
        panel_threshold: Some(0.55_f32.to_bits()),
    });
    file.processor.flux2_klein = Some(Flux2KleinConfig {
        prompt: "Reconstruct the illustration without text.".to_owned(),
    });
    let config = restore(file, &defaults()).unwrap();

    assert!(matches!(
        config.detection(),
        DetectionModel::KoharuLayoutRFDetrSeg2XL(config)
            if config.text_threshold == Some(0.25_f32.to_bits())
                && config.bubble_threshold == Some(0.45_f32.to_bits())
                && config.panel_threshold == Some(0.55_f32.to_bits())
    ));
    assert!(matches!(
        config.inpainting().unwrap(),
        InpaintingModel::Flux2Klein(config)
            if config.prompt == "Reconstruct the illustration without text."
    ));
}

#[test]
fn keeps_profiles_separate_from_active_stage_selection() {
    let mut file = stored();
    file.inpainting.local_model = named("flux2-klein");
    file.processor.flux2_klein = Some(Flux2KleinConfig {
        prompt: "saved prompt".to_owned(),
    });
    let config = restore(file, &defaults()).unwrap();

    let InpaintingModel::Flux2Klein(config) = config.inpainting().unwrap() else {
        panic!("expected FLUX profile")
    };
    assert_eq!(config.prompt, "saved prompt");
}

#[test]
fn serializes_model_profiles_under_processor() {
    let config = PipelineConfig {
        detection: DetectionModel::KoharuLayoutRFDetrSeg2XL(KoharuLayoutRFDetrSeg2XLConfig {
            text_threshold: Some(0.25_f32.to_bits()),
            ..Default::default()
        }),
        ocr: OcrConfig::default(),
        translation: standard().translation,
        inpainting: InpaintingConfig {
            local_model: LocalInpaintingModel::Flux2Klein(Flux2KleinConfig {
                prompt: "Keep the line art.".to_owned(),
            }),
            ..InpaintingConfig::default()
        },
        processor: ProcessorConfig::default(),
    };
    let file = store(&config);
    assert_eq!(file.detection.model, "koharu-layout-rfdetr-seg-2xl");
    assert_eq!(
        file.processor
            .koharu_layout_rfdetr_seg_2xl
            .unwrap()
            .text_threshold,
        Some(0.25_f32.to_bits())
    );
    assert_eq!(
        file.processor.flux2_klein.as_ref().unwrap().prompt,
        "Keep the line art."
    );
    assert_eq!(file.inpainting.local_model.model, "flux2-klein");

    let restored = restore(file, &defaults()).unwrap();
    assert!(matches!(
        restored.inpainting().unwrap(),
        InpaintingModel::Flux2Klein(config) if config.prompt == "Keep the line art."
    ));
}

#[test]
fn translation_profiles_keep_independent_settings() {
    let profile = |model: &str, temperature: f32, policy| TranslationProfileFile {
        model: selection(Provider::OpenRouter, Some(model)),
        generation: generation(Some(temperature)),
        instructions: None,
        unit_policy: Some(policy),
    };
    let mut file = stored();
    file.translation = TranslationConfig::restore(
        TranslationConfigFile {
            source_language: Some(Language::Japanese),
            target_language: Some(Language::Russian),
            page: Some(profile("page-model", 0.2, TranslationUnitPolicy::PageOnly)),
            chapter: Some(profile(
                "chapter-model",
                0.8,
                TranslationUnitPolicy::AdaptiveV1,
            )),
        },
        &selection(Provider::Local, None),
    );
    let config = restore(file, &defaults()).unwrap();

    assert_eq!(
        config.translation.page.model.model.as_deref(),
        Some("page-model")
    );
    assert_eq!(
        config.translation.page.generation.temperature,
        Some(0.2_f32.to_bits())
    );
    assert_eq!(
        config.translation.chapter.model.model.as_deref(),
        Some("chapter-model")
    );
    assert_eq!(
        config.translation.chapter.generation.temperature,
        Some(0.8_f32.to_bits())
    );
    assert_eq!(
        config.translation.page.unit_policy,
        TranslationUnitPolicy::PageOnly
    );
    assert_eq!(
        config.translation.chapter.unit_policy,
        TranslationUnitPolicy::AdaptiveV1
    );
    assert_eq!(config.translation.target_language, Language::Russian);
}

#[test]
fn missing_chapter_policy_defaults_to_adaptive_v1() {
    let translation = TranslationConfig::restore(
        TranslationConfigFile {
            source_language: Some(Language::Japanese),
            target_language: Some(Language::Russian),
            page: None,
            chapter: Some(TranslationProfileFile {
                model: selection(Provider::OpenRouter, Some("chapter-model")),
                generation: generation(None),
                instructions: None,
                unit_policy: None,
            }),
        },
        &selection(Provider::Local, None),
    );

    assert_eq!(
        translation.chapter.unit_policy,
        TranslationUnitPolicy::AdaptiveV1
    );
    assert_eq!(translation.page.unit_policy, TranslationUnitPolicy::PageOnly);
    assert_eq!(translation.page.model.provider, Provider::Local);
}

#[test]
fn fal_models_keep_independent_settings() {
    let mut file = stored();
    file.inpainting.method = InpaintingMethod::Api;
    file.inpainting.api = ApiInpaintingConfig {
        provider: InpaintingProvider::Fal,
        model: "microsoft/mai-image-2.5/edit".to_owned(),
        prompt: "Clean the page.".to_owned(),
        apply_mode: InpaintingApplyMode::Mask,
    };
    file.processor.mai_image_2_5_edit = Some(ImageEditConfig {
        prompt: "Clean the page.".to_owned(),
        apply_mode: InpaintingApplyMode::Mask,
    });
    file.processor.mai_image_2_5_pro_edit = Some(ImageEditConfig {
        prompt: "Rebuild the page.".to_owned(),
        apply_mode: InpaintingApplyMode::FullPage,
    });
    let config = restore(file, &defaults()).unwrap();

    assert!(matches!(
        config.inpainting().unwrap(),
        InpaintingModel::MaiImage2_5Edit(settings)
            if settings.prompt == "Clean the page."
                && settings.apply_mode == InpaintingApplyMode::Mask
    ));
    let pro = config.processor.mai_image_2_5_pro_edit.as_ref().unwrap();
    assert_eq!(pro.prompt, "Rebuild the page.");

    let restored = restore(store(&config), &defaults()).unwrap();
    let edit = restored.processor.mai_image_2_5_edit.unwrap();
    assert_eq!(edit.prompt, "Clean the page.");
    assert_eq!(edit.apply_mode, InpaintingApplyMode::Mask);
    let pro = restored.processor.mai_image_2_5_pro_edit.unwrap();
    assert_eq!(pro.prompt, "Rebuild the page.");
    assert_eq!(pro.apply_mode, InpaintingApplyMode::FullPage);
}

#[test]
fn api_inpainting_uses_provider_specific_mai_model_ids() {
    let mut config = standard();
    config.inpainting.method = InpaintingMethod::Api;
    config.inpainting.api.prompt = "Remove every letter.".to_owned();

    config.inpainting.api.provider = InpaintingProvider::Fal;
    config.inpainting.api.model = "microsoft/mai-image-2.5/edit".to_owned();
    assert!(matches!(
        config.inpainting().unwrap(),
        InpaintingModel::MaiImage2_5Edit(_)
    ));
    config.inpainting.api.model = "microsoft/mai-image-2.5-pro/edit".to_owned();
    assert!(matches!(
        config.inpainting().unwrap(),
        InpaintingModel::MaiImage2_5ProEdit(_)
    ));

    config.inpainting.api.provider = InpaintingProvider::OpenRouter;
    config.inpainting.api.model = "microsoft/mai-image-2.5".to_owned();
    assert!(matches!(
        config.inpainting().unwrap(),
        InpaintingModel::OpenRouterImageEdit { model, config }
            if model == "microsoft/mai-image-2.5"
                && config.prompt == "Remove every letter."
    ));
    config.inpainting.api.model = "microsoft/mai-image-2.5-pro".to_owned();
    assert!(matches!(
        config.inpainting().unwrap(),
        InpaintingModel::OpenRouterImageEdit { model, .. }
            if model == "microsoft/mai-image-2.5-pro"
    ));
}

#[test]
fn inpainting_keeps_local_and_api_selections_independently() {
    let mut config = standard();
    config.inpainting.method = InpaintingMethod::Api;
    config.inpainting.local_model = LocalInpaintingModel::AotInpainting {};
    config.inpainting.api.provider = InpaintingProvider::OpenRouter;
    config.inpainting.api.model = "microsoft/mai-image-2.5-pro".to_owned();
    config.inpainting.api.prompt = "Rebuild only the lettering regions.".to_owned();
    config.inpainting.api.apply_mode = InpaintingApplyMode::Mask;

    let restored = restore(store(&config), &defaults()).unwrap();

    assert_eq!(restored.inpainting.method, InpaintingMethod::Api);
    assert!(matches!(
        restored.inpainting.local_model,
        LocalInpaintingModel::AotInpainting {}
    ));
    assert_eq!(
        format!("{:?}", restored.inpainting.api),
        format!("{:?}", config.inpainting.api)
    );
    restored.validate().unwrap();
}

#[test]
fn unknown_models_are_refused() {
    let mut file = stored();
    file.detection = named("other");
    assert_eq!(
        restore(file, &defaults()).unwrap_err(),
        "unsupported detection model other"
    );
    let mut file = stored();
    file.inpainting.manual_model = named("other");
    assert_eq!(
        restore(file, &defaults()).unwrap_err(),
        "unsupported local inpainting model other"
    );
    for name in ["lama", "aot-inpainting", "flux2-klein", "rorem-mixed"] {
        let model =
            restore_local_inpainting_model(name, &ProcessorConfig::default(), &defaults()).unwrap();
        assert_eq!(local_inpainting_model_id(&model), name);
    }
    let mut config = standard();
    config.inpainting.method = InpaintingMethod::Api;
    config.inpainting.api.model = "other".to_owned();
    assert!(config.validate().unwrap_err().contains("other"));
    assert!(Stages::new(&config).is_err());
}

fn pages(count: u128) -> Vec<EntityId> {
    (0..count).map(EntityId).collect()
}

fn busy(stages: &[Stage]) -> StageSet {
    let mut set = StageSet::new();
    for &stage in stages {
        set.insert(stage);
    }
    set
}

fn page(page: EntityId) -> StageTarget {
    StageTarget::Page(page)
}

#[test]
fn starts_pages_in_order_and_models_independently() {
    let pages = pages(2);
    let mut scheduler = Scheduler::new(&pages, &Stage::ALL, false);
    let mut busy = StageSet::new();

    let first = scheduler.start_next(&busy).unwrap();
    assert_eq!(first, (page(pages[0]), Stage::Detection));
    busy.insert(Stage::Detection);
    assert!(scheduler.start_next(&busy).is_none());

    busy.remove(Stage::Detection);
    assert!(!scheduler.complete_stage(page(pages[0]), Stage::Detection));
    let ocr = scheduler.start_next(&busy).unwrap();
    busy.insert(ocr.1);
    let inpainting = scheduler.start_next(&busy).unwrap();
    busy.insert(inpainting.1);
    let next_page = scheduler.start_next(&busy).unwrap();
    busy.insert(next_page.1);
    assert_eq!(ocr, (page(pages[0]), Stage::Ocr));
    assert_eq!(inpainting, (page(pages[0]), Stage::Inpainting));
    assert_eq!(next_page, (page(pages[1]), Stage::Detection));

    assert!(!scheduler.complete_stage(page(pages[0]), Stage::Ocr));
    busy.remove(Stage::Ocr);
    let translation = scheduler.start_next(&busy).unwrap();
    assert_eq!(translation, (page(pages[0]), Stage::Translation));
    assert!(busy.contains(Stage::Detection));
    assert!(busy.contains(Stage::Inpainting));
}

#[test]
fn sliding_window_backpressures_fast_upstream_models() {
    let pages = pages(4);
    let stages = [Stage::Detection, Stage::Ocr, Stage::Inpainting];
    let mut scheduler = Scheduler::new(&pages, &stages, false);
    let mut busy = StageSet::new();

    assert_eq!(
        scheduler.start_next(&busy),
        Some((page(pages[0]), Stage::Detection))
    );
    assert!(!scheduler.complete_stage(page(pages[0]), Stage::Detection));
    let ocr = scheduler.start_next(&busy).unwrap();
    busy.insert(ocr.1);
    let inpainting = scheduler.start_next(&busy).unwrap();
    busy.insert(inpainting.1);

    for &next in &pages[1..3] {
        assert_eq!(
            scheduler.start_next(&busy),
            Some((page(next), Stage::Detection))
        );
        assert!(!scheduler.complete_stage(page(next), Stage::Detection));
    }
    assert!(scheduler.start_next(&busy).is_none());

    assert!(!scheduler.complete_stage(page(pages[0]), Stage::Ocr));
    assert!(scheduler.complete_stage(page(pages[0]), Stage::Inpainting));
    assert_eq!(
        scheduler.start_next(&StageSet::new()),
        Some((page(pages[1]), Stage::Ocr))
    );
}

/// Work in a run, in the order in which it was handed out and finished.
#[derive(Clone, Copy, PartialEq)]
enum Happened {
    HandedOut(StageTarget, Stage),
    Finished(StageTarget, Stage),
}

/// Runs a schedule to its end. Which of the work under way is finished next is left to chance, and
/// so is when.
fn history(pages: &[EntityId], stages: &[Stage], project_scope: bool, seed: u32) -> Vec<Happened> {
    let mut state = seed;
    let mut next = |bound: usize| {
        state = state.wrapping_mul(1_664_525).wrapping_add(1_013_904_223);
        (state >> 16) as usize % bound
    };
    let mut scheduler = Scheduler::new(pages, stages, project_scope);
    let mut busy = StageSet::new();
    let mut running: Vec<(StageTarget, Stage)> = Vec::new();
    let mut happened = Vec::new();
    loop {
        if running.is_empty() || next(3) > 0 {
            if let Some((target, stage)) = scheduler.start_next(&busy) {
                assert!(!busy.contains(stage));
                busy.insert(stage);
                running.push((target, stage));
                happened.push(Happened::HandedOut(target, stage));
                continue;
            }
        }
        if running.is_empty() {
            return happened;
        }
        let (target, stage) = running.remove(next(running.len()));
        scheduler.complete_stage(target, stage);
        busy.remove(stage);
        happened.push(Happened::Finished(target, stage));
    }
}

#[test]
fn every_run_hands_out_all_work_once_and_in_order() {
    let pages = pages(7);
    for seed in 0..50 {
        let run = history(&pages, &Stage::ALL, false, seed);
        assert_eq!(run.len(), 2 * 7 * 4);
        let mut begun = Vec::new();
        for (k, &event) in run.iter().enumerate() {
            let past = &run[..k];
            let finished = |place, stage| past.contains(&Happened::Finished(place, stage));
            if let Happened::HandedOut(target, stage) = event {
                assert!(!past.contains(&event));
                assert!(!finished(target, stage));
                if let Some(needed) = prerequisite(stage) {
                    assert!(finished(target, needed));
                }
                if !begun.contains(&target) {
                    assert_eq!(target, page(pages[begun.len()]));
                    begun.push(target);
                }
                let open = begun
                    .iter()
                    .filter(|&&one| !Stage::ALL.iter().all(|&stage| finished(one, stage)))
                    .count();
                assert!(open <= 4);
            }
        }
    }
}

#[test]
fn every_project_run_goes_stage_by_stage() {
    let pages = pages(5);
    for seed in 0..50 {
        let run = history(&pages, &Stage::ALL, true, seed);
        assert_eq!(run.len(), 2 * (5 * 3 + 1));
        for (k, &event) in run.iter().enumerate() {
            let past = &run[..k];
            let read = pages.iter().all(|&one| {
                past.contains(&Happened::Finished(page(one), Stage::Detection))
                    && past.contains(&Happened::Finished(page(one), Stage::Ocr))
            });
            match event {
                Happened::HandedOut(StageTarget::Chapter, stage) => {
                    assert_eq!(stage, Stage::Translation);
                    assert!(read && !past.contains(&event));
                }
                Happened::HandedOut(_, Stage::Inpainting) => {
                    let translated =
                        Happened::Finished(StageTarget::Chapter, Stage::Translation);
                    assert!(read && past.contains(&translated));
                }
                Happened::HandedOut(_, stage) => assert_ne!(stage, Stage::Translation),
                Happened::Finished(..) => {}
            }
        }
    }
}

#[test]
fn schedules_one_chapter_translation_after_every_page_ocr() {
    let pages = pages(2);
    let stages = [Stage::Detection, Stage::Ocr, Stage::Translation];
    let mut scheduler = Scheduler::new(&pages, &stages, true);
    let busy = StageSet::new();

    assert_eq!(scheduler.total(), 5);
    assert_eq!(
        scheduler.start_next(&busy),
        Some((page(pages[0]), Stage::Detection))
    );
    scheduler.complete_stage(page(pages[0]), Stage::Detection);
    assert_eq!(
        scheduler.start_next(&busy),
        Some((page(pages[1]), Stage::Detection))
    );
    scheduler.complete_stage(page(pages[1]), Stage::Detection);
    assert_eq!(
        scheduler.start_next(&busy),
        Some((page(pages[0]), Stage::Ocr))
    );
    scheduler.complete_stage(page(pages[0]), Stage::Ocr);
    assert_eq!(
        scheduler.start_next(&busy),
        Some((page(pages[1]), Stage::Ocr))
    );
    scheduler.complete_stage(page(pages[1]), Stage::Ocr);
    assert_eq!(
        scheduler.start_next(&busy),
        Some((StageTarget::Chapter, Stage::Translation))
    );
}

#[test]
fn chapter_translation_precedes_sequential_project_inpainting() {
    let pages = pages(2);
    let stages = [
        Stage::Detection,
        Stage::Ocr,
        Stage::Translation,
        Stage::Inpainting,
    ];
    let mut scheduler = Scheduler::new(&pages, &stages, true);
    let busy = StageSet::new();

    for &next in &pages {
        assert_eq!(
            scheduler.start_next(&busy),
            Some((page(next), Stage::Detection))
        );
        scheduler.complete_stage(page(next), Stage::Detection);
    }
    for &next in &pages {
        assert_eq!(scheduler.start_next(&busy), Some((page(next), Stage::Ocr)));
        scheduler.complete_stage(page(next), Stage::Ocr);
    }

    assert_eq!(
        scheduler.start_next(&busy),
        Some((StageTarget::Chapter, Stage::Translation))
    );
    scheduler.complete_stage(StageTarget::Chapter, Stage::Translation);
    assert_eq!(
        scheduler.start_next(&busy),
        Some((page(pages[0]), Stage::Inpainting))
    );
    scheduler.complete_stage(page(pages[0]), Stage::Inpainting);
    assert_eq!(
        scheduler.start_next(&busy),
        Some((page(pages[1]), Stage::Inpainting))
    );
}

#[test]
fn stages_have_names_ranks_and_prerequisites() {
    assert_eq!(
        Stage::ALL.map(Stage::name),
        ["detection", "ocr", "translation", "inpainting"]
    );
    assert_eq!(Stage::ALL.map(Stage::rank), [0, 1, 2, 3]);
    assert_eq!(
        Stage::ALL.map(prerequisite),
        [
            None,
            Some(Stage::Detection),
            Some(Stage::Ocr),
            Some(Stage::Detection)
        ]
    );
    assert_eq!(page(EntityId(1)).describe("p"), "page p");
    assert_eq!(StageTarget::Chapter.describe("p"), "chapter");
    assert!(busy(&[Stage::Ocr]).contains(Stage::Ocr));
}

fn mark(revision: u64) -> SceneMark {
    SceneMark {
        project: 1,
        revision,
    }
}

fn error(stage: Stage, message: &str) -> PipelineError {
    PipelineError::new(ErrorKind::Processing, Some(stage), vec![message.to_owned()])
}

#[test]
fn late_translation_completion_is_committed_after_parallel_inpainting_failure() {
    let pages = pages(1);
    let mut run = Execution::new(&pages, &[Stage::Translation], false, None, mark(1)).unwrap();
    assert_eq!(
        run.take_ready_job(false),
        Some((page(pages[0]), Stage::Translation))
    );
    run.fail(error(Stage::Inpainting, "inpainting failed"));
    assert_eq!(run.take_ready_job(false), None);

    let step = run.handle_completion(
        page(pages[0]),
        Stage::Translation,
        Ok(StageOutcome::Patch),
        false,
    );

    assert!(matches!(step, Step::Commit));
    let step = run.committed(page(pages[0]), Stage::Translation, mark(2));
    assert!(matches!(step, Step::Finished { forget: Some(EntityId(0)) }));
    assert_eq!(run.scene, mark(2));
    assert_eq!(run.completed, 1);
    assert_eq!(
        run.finalize(false).unwrap_err().messages,
        ["inpainting failed"]
    );
}

#[test]
fn project_inpainting_failure_is_reported_as_page_warning() {
    let pages = pages(2);
    let mut run = Execution::new(&pages, &[Stage::Inpainting], true, None, mark(1)).unwrap();
    assert_eq!(
        run.take_ready_job(false),
        Some((page(pages[0]), Stage::Inpainting))
    );

    let step = run.handle_completion(
        page(pages[0]),
        Stage::Inpainting,
        Err(error(Stage::Inpainting, "content policy")),
        false,
    );

    assert!(run.failure.is_none());
    assert_eq!(run.completed, 1);
    assert!(matches!(step, Step::Warn { error, .. } if error.messages == ["content policy"]));
    let next = run
        .scheduler
        .start_next(&StageSet::new())
        .expect("next page should continue");
    assert_eq!(next, (page(pages[1]), Stage::Inpainting));
}

#[test]
fn runs_count_what_they_finish() {
    let pages = pages(1);
    let mut run = Execution::new(&pages, &[Stage::Detection], false, None, mark(1)).unwrap();
    run.take_ready_job(false).unwrap();
    let step = run.handle_completion(
        page(pages[0]),
        Stage::Detection,
        Ok(StageOutcome::Skipped),
        false,
    );
    assert!(matches!(step, Step::Skipped { .. }));
    let report = run.finalize(false).unwrap();
    assert_eq!(report.status, RunStatus::Completed);
    assert_eq!((report.completed, report.total), (1, 1));

    let run = Execution::new(&pages, &[Stage::Detection], false, None, mark(1)).unwrap();
    assert_eq!(
        run.finalize(false).unwrap_err().messages,
        ["pipeline scheduler stopped after 0 of 1 work items"]
    );
    let run = Execution::new(&pages, &[Stage::Detection], false, None, mark(1)).unwrap();
    assert_eq!(run.finalize(true).unwrap().status, RunStatus::Stopped);
}

#[test]
fn masks_lie_on_pages_that_are_painted() {
    let new = |stage: Stage, mask: u128| {
        Execution::new(&pages(1), &[stage], false, Some(EntityId(mask)), mark(1))
    };
    assert!(new(Stage::Inpainting, 0).is_ok());
    for refused in [new(Stage::Inpainting, 5), new(Stage::Ocr, 0)] {
        let error = refused.err().unwrap();
        assert_eq!(error.kind, ErrorKind::InvalidInput);
        assert_eq!(
            error.messages,
            ["the inpainting mask page is outside the inpainting scope"]
        );
    }
}

#[test]
fn commits_advance_one_project() {
    assert!(validate_commit(mark(1), mark(2)).is_ok());
    assert_eq!(
        validate_commit(mark(1), mark(1)).unwrap_err(),
        "committer did not advance the scene revision"
    );
    let other = SceneMark {
        project: 2,
        revision: 9,
    };
    assert_eq!(
        validate_commit(mark(1), other).unwrap_err(),
        "committer returned a snapshot from another project"
    );
    let pages = pages(1);
    let mut run = Execution::new(&pages, &[Stage::Ocr], false, None, mark(1)).unwrap();
    let step = run.committed(page(pages[0]), Stage::Ocr, mark(1));
    assert!(matches!(step, Step::Nothing));
    assert_eq!(run.failure.unwrap().kind, ErrorKind::Commit);
}

#[test]
fn memory_pressure_does_not_retry_remote_out_of_memory_wording() {
    let error = vec!["Fal.ai provider failed: out of memory".to_owned()];

    assert!(!should_retry_after_memory_pressure(false, false, &error));
    assert!(should_retry_after_memory_pressure(true, false, &error));
    assert!(!should_retry_after_memory_pressure(true, true, &error));
}

#[test]
fn shortage_of_memory_is_told_in_many_ways() {
    for message in [
        "CUDA_ERROR_OUT_OF_MEMORY",
        "Out Of Memory",
        "there is not enough memory",
    ] {
        assert!(is_out_of_memory(&vec!["outer".to_owned(), message.to_owned()]));
    }
    assert!(!is_out_of_memory(&vec!["memory".to_owned()]));
    assert!(!is_out_of_memory(&vec![]));
}

#[test]
fn a_stage_is_tried_again_once() {
    let short = || vec!["out of memory".to_owned()];
    let (run, action) = StageRun::start(Stage::Ocr, "manga-ocr".to_owned(), true, false);
    assert!(matches!(action, RunAction::CheckSkip));
    assert!(run.expects(&RunEvent::Skip(Ok(false))));
    assert!(!run.expects(&RunEvent::Acquired));
    let (run, action) = run.next(RunEvent::Skip(Ok(false)), false);
    assert!(matches!(action, RunAction::Acquire));
    let (run, action) = run.next(RunEvent::Acquired, false);
    assert!(matches!(action, RunAction::Load));
    let (run, action) = run.next(RunEvent::Loaded(Ok(())), false);
    assert!(matches!(action, RunAction::Process));
    let (run, action) = run.next(RunEvent::Processed(Err(short())), false);
    assert!(matches!(action, RunAction::Recover));
    let (run, action) = run.next(RunEvent::Recovered, false);
    assert!(matches!(action, RunAction::Load));
    let (_, action) = run.next(RunEvent::Loaded(Err(short())), false);
    assert_eq!(action.unload(), Some(Stage::Ocr));
    let RunAction::Fail { unload, error } = action else {
        panic!("expected a failure")
    };
    assert_eq!(unload, Stage::Ocr);
    assert_eq!(error.kind, ErrorKind::ModelLoad);
    assert_eq!(error.messages, ["failed to load manga-ocr", "out of memory"]);
}

#[test]
fn a_stopped_stage_ends() {
    let (_, action) = StageRun::start(Stage::Ocr, "m".to_owned(), true, true);
    assert!(matches!(action, RunAction::Finish(StageOutcome::Stopped)));
    let (run, _) = StageRun::start(Stage::Ocr, "m".to_owned(), true, false);
    let (run, _) = run.next(RunEvent::Skip(Ok(false)), false);
    let (_, action) = run.next(RunEvent::Acquired, true);
    assert!(matches!(action, RunAction::Finish(StageOutcome::Stopped)));
    let (run, _) = StageRun::start(Stage::Ocr, "m".to_owned(), true, false);
    let (_, action) = run.next(RunEvent::Skip(Ok(true)), false);
    assert!(matches!(action, RunAction::Finish(StageOutcome::Skipped)));
    let error = stage_error(Stage::Ocr, "m", ErrorKind::Processing, vec!["why".to_owned()]);
    assert_eq!(error.messages, ["m failed", "why"]);
}

#[test]
fn a_failed_stage_is_unloaded() {
    let start = |recovers| StageRun::start(Stage::Ocr, "m".to_owned(), recovers, false).0;
    let why = || vec!["why".to_owned()];
    let (_, action) = start(true).next(RunEvent::Skip(Err(why())), false);
    assert_eq!(action.unload(), Some(Stage::Ocr));
    let (run, action) = start(true).next(RunEvent::Skip(Ok(false)), false);
    assert_eq!(action.unload(), None);
    let (run, _) = run.next(RunEvent::Acquired, false);
    let (run, _) = run.next(RunEvent::Loaded(Ok(())), false);
    let (_, action) = run.next(RunEvent::Processed(Err(why())), false);
    let RunAction::Fail { unload, error } = action else {
        panic!("expected a failure")
    };
    assert_eq!(unload, Stage::Ocr);
    assert_eq!(error.messages, ["m failed", "why"]);
}

#[test]
fn a_stage_was_unloaded_where_a_processor_was() {
    assert!(unloaded(&vec![false, true]));
    assert!(!unloaded(&vec![false, false]));
    assert!(!unloaded(&vec![]));
}

#[test]
fn profiles_come_before_the_settings_of_a_selection() {
    let flux = |prompt: &str| Flux2KleinConfig {
        prompt: prompt.to_owned(),
    };
    let edit = |prompt: &str| ImageEditConfig {
        prompt: prompt.to_owned(),
        apply_mode: InpaintingApplyMode::Mask,
    };
    let mut config = standard();
    config.inpainting.local_model = LocalInpaintingModel::Flux2Klein(flux("a"));
    config.inpainting.manual_model = LocalInpaintingModel::Flux2Klein(flux("c"));
    assert!(matches!(config.inpainting(),
        Ok(InpaintingModel::Flux2Klein(settings)) if settings.prompt == "a"));
    config.processor.flux2_klein = Some(flux("b"));
    assert!(matches!(config.inpainting(),
        Ok(InpaintingModel::Flux2Klein(settings)) if settings.prompt == "b"));
    assert!(matches!(config.manual_inpainting(),
        InpaintingModel::Flux2Klein(settings) if settings.prompt == "b"));

    config.inpainting.method = InpaintingMethod::Api;
    config.inpainting.api.provider = InpaintingProvider::Fal;
    config.inpainting.api.model = "microsoft/mai-image-2.5-pro/edit".to_owned();
    config.inpainting.api.prompt = "own".to_owned();
    assert!(matches!(config.inpainting(),
        Ok(InpaintingModel::MaiImage2_5ProEdit(settings)) if settings.prompt == "own"));
    config.processor.mai_image_2_5_edit = Some(edit("plain"));
    assert!(matches!(config.inpainting(),
        Ok(InpaintingModel::MaiImage2_5ProEdit(settings)) if settings.prompt == "own"));
    config.processor.mai_image_2_5_pro_edit = Some(edit("pro"));
    assert!(matches!(config.inpainting(),
        Ok(InpaintingModel::MaiImage2_5ProEdit(settings)) if settings.prompt == "pro"));
}

#[test]
fn transient_remove_mask_selects_the_manual_lama_processor() {
    let mut config = standard();
    config.inpainting.method = InpaintingMethod::Api;
    let stages = Stages::new(&config).unwrap();

    assert_eq!(
        stages.processor(Stage::Inpainting, false),
        ProcessorSlot::Inpainting
    );
    assert!(matches!(stages.inpainting, InpaintingModel::MaiImage2_5Edit(_)));
    assert_eq!(
        stages.processor(Stage::Inpainting, true),
        ProcessorSlot::ManualInpainting
    );
    assert!(matches!(
        stages.manual_inpainting,
        Some(InpaintingModel::LaMa {})
    ));
}

#[test]
fn one_model_serves_both_kinds_of_cleanup() {
    let stages = Stages::new(&standard()).unwrap();
    assert!(stages.manual_inpainting.is_none());
    assert_eq!(
        stages.processor(Stage::Inpainting, true),
        ProcessorSlot::Inpainting
    );
    assert_eq!(stages.unload(Stage::Inpainting), [ProcessorSlot::Inpainting]);
    assert_eq!(stages.unload(Stage::Ocr), [ProcessorSlot::Ocr]);
    let mut config = standard();
    config.inpainting.manual_model = LocalInpaintingModel::AotInpainting {};
    let stages = Stages::new(&config).unwrap();
    assert_eq!(
        stages.unload(Stage::Inpainting),
        [ProcessorSlot::Inpainting, ProcessorSlot::ManualInpainting]
    );
}

#[test]
fn memory_pressure_recovery_is_limited_to_locally_managed_models() {
    let target = page(EntityId(1));
    let local = standard();
    assert!(translation_recovers(&local.translation, target));
    assert!(translation_recovers(&local.translation, StageTarget::Chapter));

    let mut remote = standard();
    remote.translation.page.model.provider = Provider::OpenRouter;
    remote.translation.chapter.model.provider = Provider::OpenRouter;
    assert!(!translation_recovers(&remote.translation, target));
    assert!(!translation_recovers(&remote.translation, StageTarget::Chapter));
    assert_eq!(
        translation_profile(&local.translation, StageTarget::Chapter).unit_policy,
        TranslationUnitPolicy::AdaptiveV1
    );
}
