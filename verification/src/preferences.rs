//! What the settings show and what they change.

use vstd::prelude::*;

use crate::config::{
    api_edit, DetectionModel, InpaintingProvider, LocalInpaintingModel, PipelineConfig,
    ProcessorConfig,
};
use crate::fal::ImageEditConfig;
use crate::json::Json;
use crate::request::LanguageName;
use crate::text::{same, trim, trimmed};
use crate::translator::{name_view, Provider};

verus! {

/// A credential in the settings. What is stored is never shown, only whether something is.
pub struct CredentialInput {
    pub configured: bool,
    pub value: Option<String>,
    pub clear: bool,
}

/// What happens to a stored secret.
pub enum SecretChange {
    Keep,
    Delete,
    Store(String),
}

/// What happens to a stored secret, as a mathematical value.
pub enum Change {
    Keep,
    Delete,
    Store(Seq<char>),
}

impl View for SecretChange {
    type V = Change;

    open spec fn view(&self) -> Change {
        match *self {
            SecretChange::Keep => Change::Keep,
            SecretChange::Delete => Change::Delete,
            SecretChange::Store(value) => Change::Store(value@),
        }
    }
}

impl Default for CredentialInput {
    fn default() -> (result: CredentialInput)
        ensures
            result == (CredentialInput { configured: false, value: None, clear: false }),
    {
        CredentialInput { configured: false, value: None, clear: false }
    }
}

fn word(flag: bool) -> (result: &'static str)
    ensures
        result@ == if flag {
            "true"@
        } else {
            "false"@
        },
{
    if flag {
        "true"
    } else {
        "false"
    }
}

impl CredentialInput {
    /// What a stored secret shows.
    pub open spec fn shows(self, secret: Option<Seq<char>>) -> bool {
        &&& self.configured == (secret matches Some(value) && trimmed(value).len() > 0)
        &&& self.value is None
        &&& !self.clear
    }

    /// Shows a stored secret.
    pub fn load(secret: &Option<String>) -> (result: CredentialInput)
        ensures
            result.shows(name_view(*secret)),
    {
        let configured = match secret {
            Some(value) => {
                let content = trim(value.as_str());
                !content.as_str().is_empty()
            },
            None => false,
        };
        CredentialInput { configured, value: None, clear: false }
    }

    /// What the input does to the stored secret.
    pub open spec fn change(self) -> Change {
        if self.clear {
            Change::Delete
        } else {
            match self.value {
                None => Change::Keep,
                Some(value) => if trimmed(value@).len() == 0 {
                    Change::Delete
                } else {
                    Change::Store(value@)
                },
            }
        }
    }

    /// What the input does to the stored secret: clearing it wins over a value, a blank value
    /// clears it too, and without a value it stays.
    pub fn save(self) -> (result: SecretChange)
        ensures
            result@ == self.change(),
    {
        if self.clear {
            return SecretChange::Delete;
        }
        match self.value {
            None => SecretChange::Keep,
            Some(value) => {
                let content = trim(value.as_str());
                if content.as_str().is_empty() {
                    SecretChange::Delete
                } else {
                    SecretChange::Store(value)
                }
            },
        }
    }

    /// The input in a log.
    pub open spec fn text(self) -> Seq<char> {
        let configured = if self.configured {
            "true"@
        } else {
            "false"@
        };
        let value = if self.value is Some {
            "Some(\"[REDACTED]\")"@
        } else {
            "None"@
        };
        let clear = if self.clear {
            "true"@
        } else {
            "false"@
        };
        "CredentialInput { configured: "@ + configured + ", value: "@ + value + ", clear: "@ + clear
            + " }"@
    }

    /// The input in a log, without its value.
    pub fn describe(&self) -> (result: String)
        ensures
            result@ == self.text(),
    {
        let mut result = "CredentialInput { configured: ".to_owned();
        result.append(word(self.configured));
        result.append(", value: ");
        match &self.value {
            Some(_) => result.append("Some(\"[REDACTED]\")"),
            None => result.append("None"),
        }
        result.append(", clear: ");
        result.append(word(self.clear));
        result.append(" }");
        result
    }
}

/// What a log says of a credential does not depend on its value.
pub proof fn law_logs_hide_credentials(left: CredentialInput, right: CredentialInput)
    requires
        left.configured == right.configured,
        left.clear == right.clear,
        left.value is Some == right.value is Some,
    ensures
        left.text() == right.text(),
{
}

/// Saving what was shown, unchanged, changes no secret.
pub proof fn law_unchanged_credentials_stay(input: CredentialInput, secret: Option<Seq<char>>)
    requires
        input.shows(secret),
    ensures
        input.change() == Change::Keep,
{
}

/// How a provider of translation is set up.
pub struct ProviderConfig {
    pub provider: Provider,
    /// The name that people read.
    pub name: String,
    /// The name under which its secret is stored.
    pub key: String,
    /// What is set up besides.
    pub settings: Json,
}

impl ProviderConfig {
    /// The key of the secret that the provider needs.
    pub fn secret_key(&self) -> (result: Option<&str>)
        ensures
            match result {
                Some(key) => self.provider != Provider::Local && key@ == self.key@,
                None => self.provider == Provider::Local,
            },
    {
        if self.provider == Provider::Local {
            None
        } else {
            Some(self.key.as_str())
        }
    }
}

/// A provider in the settings.
pub struct ProviderPreference {
    pub name: String,
    pub config: ProviderConfig,
    pub credential: Option<CredentialInput>,
}

/// The providers in the settings.
pub struct ProviderPreferences {
    pub entries: Vec<ProviderPreference>,
    pub fal: CredentialInput,
}

/// What is wrong with a provider in the settings.
pub open spec fn entry_problem(entry: ProviderPreference) -> Option<Seq<char>> {
    if entry.credential is None && entry.config.provider != Provider::Local {
        Some("missing credential input for "@ + entry.config.key@)
    } else if entry.credential is Some && entry.config.provider == Provider::Local {
        Some("local translation does not accept credentials"@)
    } else {
        None
    }
}

/// The first thing that is wrong with providers in the settings.
pub open spec fn entries_problem(entries: Seq<ProviderPreference>) -> Option<Seq<char>>
    decreases entries.len(),
{
    if entries.len() == 0 {
        None
    } else {
        match entries_problem(entries.drop_last()) {
            Some(problem) => Some(problem),
            None => entry_problem(entries.last()),
        }
    }
}

/// The secrets that providers in the settings change, in order.
pub open spec fn entries_changes(entries: Seq<ProviderPreference>) -> Seq<(Seq<char>, Change)>
    decreases entries.len(),
{
    if entries.len() == 0 {
        Seq::empty()
    } else {
        let before = entries_changes(entries.drop_last());
        match entries.last().credential {
            Some(credential) => before.push((entries.last().config.key@, credential.change())),
            None => before,
        }
    }
}

/// Changes of secrets, each under its key.
pub open spec fn changes_view(changes: Seq<(String, SecretChange)>) -> Seq<(Seq<char>, Change)> {
    changes.map_values(|change: (String, SecretChange)| (change.0@, change.1@))
}

/// What saving the providers does.
pub struct ProviderChanges {
    pub configs: Vec<ProviderConfig>,
    pub secrets: Vec<(String, SecretChange)>,
}

proof fn lemma_entries_prefix(entries: Seq<ProviderPreference>, count: int)
    requires
        0 <= count <= entries.len(),
        entries_problem(entries.take(count)) is Some,
    ensures
        entries_problem(entries) == entries_problem(entries.take(count)),
    decreases entries.len() - count,
{
    if count < entries.len() {
        assert(entries.take(count + 1).drop_last() =~= entries.take(count));
        lemma_entries_prefix(entries, count + 1);
    } else {
        assert(entries.take(count) =~= entries);
    }
}

impl ProviderPreferences {
    /// Shows the providers; `secrets` holds what is stored for each, and `fal` what is stored for
    /// editing images.
    pub fn from_config(
        configs: Vec<ProviderConfig>,
        secrets: &Vec<Option<String>>,
        fal: &Option<String>,
    ) -> (result: ProviderPreferences)
        requires
            secrets.len() == configs.len(),
        ensures
            result.fal.shows(name_view(*fal)),
            result.entries.len() == configs.len(),
            forall|i: int|
                0 <= i < configs.len() ==> {
                    let entry = #[trigger] result.entries@[i];
                    &&& entry.name@ == configs@[i].name@
                    &&& entry.config == configs@[i]
                    &&& match entry.credential {
                        Some(input) => configs@[i].provider != Provider::Local && input.shows(
                            name_view(secrets@[i]),
                        ),
                        None => configs@[i].provider == Provider::Local,
                    }
                },
    {
        let mut rest = configs;
        let mut reversed: Vec<ProviderPreference> = Vec::new();
        while rest.len() > 0
            invariant
                rest.len() + reversed.len() == configs.len(),
                secrets.len() == configs.len(),
                rest@ == configs@.take(rest.len() as int),
                forall|i: int|
                    0 <= i < reversed.len() ==> {
                        let entry = #[trigger] reversed@[i];
                        let config = configs@[configs.len() - 1 - i];
                        &&& entry.name@ == config.name@
                        &&& entry.config == config
                        &&& match entry.credential {
                            Some(input) => config.provider != Provider::Local && input.shows(
                                name_view(secrets@[configs.len() - 1 - i]),
                            ),
                            None => config.provider == Provider::Local,
                        }
                    },
            decreases rest.len(),
        {
            match rest.pop() {
                Some(config) => {
                    let place: usize = rest.len();
                    proof {
                        assert(config == configs@[place as int]);
                        assert(rest@ =~= configs@.take(place as int));
                    }
                    let credential = if config.provider == Provider::Local {
                        None
                    } else {
                        Some(CredentialInput::load(&secrets[place]))
                    };
                    reversed.push(
                        ProviderPreference { name: config.name.clone(), config, credential },
                    );
                },
                None => {},
            }
        }
        let mut entries: Vec<ProviderPreference> = Vec::new();
        let ghost backwards = reversed@;
        while reversed.len() > 0
            invariant
                reversed.len() + entries.len() == backwards.len(),
                reversed@ == backwards.take(reversed.len() as int),
                forall|i: int|
                    0 <= i < entries.len() ==> #[trigger] entries@[i] == backwards[backwards.len()
                        - 1 - i],
            decreases reversed.len(),
        {
            match reversed.pop() {
                Some(entry) => {
                    proof {
                        assert(reversed@ =~= backwards.take(reversed.len() as int));
                    }
                    entries.push(entry);
                },
                None => {},
            }
        }
        ProviderPreferences { entries, fal: CredentialInput::load(fal) }
    }

    /// What saving the providers does: how each is set up, and what happens to the secrets. Nothing
    /// is changed where a provider lacks a credential, or the one on this machine has one.
    pub fn into_config(self) -> (result: Result<ProviderChanges, String>)
        ensures
            match entries_problem(self.entries@) {
                Some(problem) => result matches Err(message) && message@ == problem,
                None => {
                    &&& result matches Ok(changes)
                    &&& changes.configs.len() == self.entries.len()
                    &&& forall|i: int|
                        0 <= i < self.entries.len() ==> #[trigger] changes.configs@[i]
                            == self.entries@[i].config
                    &&& changes_view(changes.secrets@) == entries_changes(self.entries@).push(
                        ("fal"@, self.fal.change()),
                    )
                },
            },
    {
        let ghost entries = self.entries@;
        let mut configs: Vec<ProviderConfig> = Vec::new();
        let mut secrets: Vec<(String, SecretChange)> = Vec::new();
        proof {
            assert(entries.take(0) =~= Seq::empty());
            assert(changes_view(secrets@) =~= Seq::empty());
        }
        for entry in it: self.entries
            invariant
                it.seq() == entries,
                configs.len() == it.index(),
                forall|i: int|
                    0 <= i < it.index() ==> #[trigger] configs@[i] == entries[i].config,
                entries_problem(entries.take(it.index() as int)) is None,
                changes_view(secrets@) == entries_changes(entries.take(it.index() as int)),
        {
            let ghost index = configs.len() as int;
            proof {
                let longer = entries.take(index + 1);
                assert(longer.drop_last() =~= entries.take(index));
                assert(longer.last() == entry);
            }
            let local = entry.config.provider == Provider::Local;
            match entry.credential {
                None => {
                    if !local {
                        let mut message = "missing credential input for ".to_owned();
                        message.append(entry.config.key.as_str());
                        proof {
                            lemma_entries_prefix(entries, index + 1);
                        }
                        return Err(message);
                    }
                },
                Some(credential) => {
                    if local {
                        proof {
                            lemma_entries_prefix(entries, index + 1);
                        }
                        return Err("local translation does not accept credentials".to_owned());
                    }
                    let ghost before = secrets@;
                    secrets.push((entry.config.key.clone(), credential.save()));
                    proof {
                        assert(changes_view(secrets@) =~= changes_view(before).push(
                            (secrets@.last().0@, secrets@.last().1@),
                        ));
                    }
                },
            }
            configs.push(entry.config);
        }
        proof {
            assert(entries.take(entries.len() as int) =~= entries);
        }
        let ghost before = secrets@;
        secrets.push(("fal".to_owned(), self.fal.save()));
        proof {
            assert(changes_view(secrets@) =~= changes_view(before).push(
                (secrets@.last().0@, secrets@.last().1@),
            ));
        }
        Ok(ProviderChanges { configs, secrets })
    }
}

/// A language that can be chosen.
pub struct LanguageChoice {
    pub tag: String,
    pub name: String,
}

/// The languages that can be chosen, in order.
pub fn language_choices(languages: &Vec<LanguageName>) -> (result: Vec<LanguageChoice>)
    ensures
        result.len() == languages.len(),
        forall|i: int|
            0 <= i < languages.len() ==> (#[trigger] result@[i]).tag@ == languages@[i].code@
                && result@[i].name@ == languages@[i].words@,
{
    let mut result: Vec<LanguageChoice> = Vec::new();
    let mut index: usize = 0;
    while index < languages.len()
        invariant
            index <= languages.len(),
            result.len() == index,
            forall|i: int|
                0 <= i < index ==> (#[trigger] result@[i]).tag@ == languages@[i].code@
                    && result@[i].name@ == languages@[i].words@,
        decreases languages.len() - index,
    {
        let language = &languages[index];
        result.push(LanguageChoice { tag: language.code.clone(), name: language.words.clone() });
        index += 1;
    }
    result
}

/// An edit profile after settings were saved: the one that was edited, or the one from before.
pub open spec fn remembered_edit(
    config: PipelineConfig,
    model: Seq<char>,
    before: Option<ImageEditConfig>,
) -> Option<ImageEditConfig> {
    if config.inpainting.api.provider == InpaintingProvider::Fal && config.inpainting.api.model@
        == model {
        Some(api_edit(config.inpainting.api))
    } else {
        before
    }
}

/// What the settings remember of each model.
pub open spec fn remembered(config: PipelineConfig) -> ProcessorConfig {
    let before = config.processor;
    ProcessorConfig {
        koharu_layout_rfdetr_seg_2xl: Some(
            config.detection->KoharuLayoutRFDetrSeg2XL_0,
        ),
        flux2_klein: match config.inpainting.local_model {
            LocalInpaintingModel::Flux2Klein(settings) => Some(settings),
            _ => before.flux2_klein,
        },
        rorem_mixed: match config.inpainting.local_model {
            LocalInpaintingModel::RoremMixed(settings) => Some(settings),
            _ => before.rorem_mixed,
        },
        mai_image_2_5_edit: remembered_edit(
            config,
            "microsoft/mai-image-2.5/edit"@,
            before.mai_image_2_5_edit,
        ),
        mai_image_2_5_pro_edit: remembered_edit(
            config,
            "microsoft/mai-image-2.5-pro/edit"@,
            before.mai_image_2_5_pro_edit,
        ),
    }
}

/// Keeps the settings of the chosen models, each for the next time its model is chosen.
pub fn remember_pipeline_profiles(config: &mut PipelineConfig)
    ensures
        *final(config) == (PipelineConfig { processor: remembered(*old(config)), ..*old(config) }),
{
    proof {
        reveal_strlit("microsoft/mai-image-2.5/edit");
        reveal_strlit("microsoft/mai-image-2.5-pro/edit");
        assert("microsoft/mai-image-2.5/edit"@.len() != "microsoft/mai-image-2.5-pro/edit"@.len());
    }
    let settings = match &config.detection {
        DetectionModel::KoharuLayoutRFDetrSeg2XL(settings) => *settings,
    };
    config.processor.koharu_layout_rfdetr_seg_2xl = Some(settings);
    if let LocalInpaintingModel::Flux2Klein(settings) = &config.inpainting.local_model {
        config.processor.flux2_klein = Some(settings.clone());
    }
    if let LocalInpaintingModel::RoremMixed(settings) = &config.inpainting.local_model {
        config.processor.rorem_mixed = Some(settings.clone());
    }
    if config.inpainting.api.provider == InpaintingProvider::Fal {
        let settings = ImageEditConfig {
            prompt: config.inpainting.api.prompt.clone(),
            apply_mode: config.inpainting.api.apply_mode,
        };
        if same(config.inpainting.api.model.as_str(), "microsoft/mai-image-2.5/edit") {
            config.processor.mai_image_2_5_edit = Some(settings);
        } else if same(config.inpainting.api.model.as_str(), "microsoft/mai-image-2.5-pro/edit") {
            config.processor.mai_image_2_5_pro_edit = Some(settings);
        }
    }
}

/// Saving the settings of one edit model leaves what is remembered of the other.
pub proof fn law_edit_profiles_are_remembered_apart(config: PipelineConfig)
    ensures
        config.inpainting.api.model@ == "microsoft/mai-image-2.5/edit"@ ==> remembered(
            config,
        ).mai_image_2_5_pro_edit == config.processor.mai_image_2_5_pro_edit,
        config.inpainting.api.model@ == "microsoft/mai-image-2.5-pro/edit"@ ==> remembered(
            config,
        ).mai_image_2_5_edit == config.processor.mai_image_2_5_edit,
        config.inpainting.api.provider != InpaintingProvider::Fal ==> remembered(
            config,
        ).mai_image_2_5_edit == config.processor.mai_image_2_5_edit && remembered(
            config,
        ).mai_image_2_5_pro_edit == config.processor.mai_image_2_5_pro_edit,
{
    reveal_strlit("microsoft/mai-image-2.5/edit");
    reveal_strlit("microsoft/mai-image-2.5-pro/edit");
    assert("microsoft/mai-image-2.5/edit"@.len() != "microsoft/mai-image-2.5-pro/edit"@.len());
}

/// A secret is deleted where that was asked for or a blank one was entered, stored as it was entered
/// where it is not blank, and kept where nothing was entered.
pub proof fn law_entered_secrets_are_stored(input: CredentialInput)
    ensures
        input.clear ==> input.change() == Change::Delete,
        !input.clear && input.value is None ==> input.change() == Change::Keep,
        !input.clear ==> (input.value matches Some(value) ==> {
            &&& trimmed(value@).len() == 0 ==> input.change() == Change::Delete
            &&& trimmed(value@).len() > 0 ==> input.change() == Change::Store(value@)
        }),
{
}

/// Providers can be saved exactly if each but the local one has a field for its credential, and the
/// local one has none. Then each of these fields changes the secret of its own provider.
pub proof fn law_credentials_belong_to_services(entries: Seq<ProviderPreference>, at: int)
    requires
        0 <= at < entries.len(),
    ensures
        entries_problem(entries) is None ==> (entries[at].credential is Some
            <==> entries[at].config.provider != Provider::Local),
        entries[at].credential matches Some(credential) ==> entries_changes(entries).contains(
            (entries[at].config.key@, credential.change()),
        ),
    decreases entries.len(),
{
    let rest = entries.drop_last();
    if at < rest.len() {
        law_credentials_belong_to_services(rest, at);
        if let Some(credential) = entries[at].credential {
            let change = (entries[at].config.key@, credential.change());
            let before = entries_changes(rest);
            let k = choose|k: int| 0 <= k < before.len() && before[k] == change;
            assert(entries_changes(entries)[k] == change);
        }
    } else if entries[at].credential is Some {
        let before = entries_changes(rest);
        assert(entries_changes(entries)[before.len() as int].0 == entries[at].config.key@);
    }
}

} // verus!
